//! The configuration file: its sections, and what they say of models and agents.

use crate::order;
use crate::order::TextMap;
use crate::text;
use vstd::prelude::*;

verus! {

// ── What a configuration says ──

/// How to reach the language model.
#[derive(Debug, PartialEq, Eq, Default)]
pub struct LlmConfig {
    pub base_url: String,
    pub api_key: String,
    pub model: String,
    pub timeout_secs: u64,
}

/// How to reach the language model, as values.
pub struct GLlm {
    pub base_url: Seq<char>,
    pub api_key: Seq<char>,
    pub model: Seq<char>,
    pub timeout_secs: int,
}

/// A named agent.
#[derive(Debug, PartialEq, Eq, Default)]
pub struct AgentConfig {
    pub model: String,
    pub system: String,
    pub schema: String,
    pub timeout_secs: u64,
    /// The tiers that the agent climbs, from the lightest on.
    pub tiers: Vec<String>,
    /// What the agent may do, for a prompt that is put together for it.
    pub guide: String,
}

/// A named agent, as values.
pub struct GAgent {
    pub model: Seq<char>,
    pub system: Seq<char>,
    pub schema: Seq<char>,
    pub timeout_secs: int,
    pub tiers: Seq<Seq<char>>,
    pub guide: Seq<char>,
}

/// A named level of ability and the model that stands for it.
#[derive(Debug, PartialEq, Eq, Default)]
pub struct ModelTier {
    pub model: String,
    pub base_url: String,
    pub api_key: String,
    pub timeout_secs: u64,
    pub max_tokens: u64,
}

/// A named level of ability, as values.
pub struct GTier {
    pub model: Seq<char>,
    pub base_url: Seq<char>,
    pub api_key: Seq<char>,
    pub timeout_secs: int,
    pub max_tokens: int,
}

/// The tiers by name.
#[derive(Debug)]
pub struct TiersConfig {
    pub tiers: TextMap<ModelTier>,
}

/// The agents by name.
#[derive(Debug)]
pub struct AgentsConfig {
    pub agents: TextMap<AgentConfig>,
}

impl LlmConfig {
    pub open spec fn view(&self) -> GLlm {
        GLlm {
            base_url: self.base_url@,
            api_key: self.api_key@,
            model: self.model@,
            timeout_secs: self.timeout_secs as int,
        }
    }

    /// The settings, with defaults for what was left open.
    pub fn with_defaults(self) -> (r: LlmConfig)
        ensures
            r@ == completed(self@),
    {
        LlmConfig {
            base_url: if self.base_url.as_str().is_empty() {
                "https://api.openai.com/v1".to_owned()
            } else {
                self.base_url
            },
            api_key: self.api_key,
            model: if self.model.as_str().is_empty() {
                "gpt-4o-mini".to_owned()
            } else {
                self.model
            },
            timeout_secs: if self.timeout_secs == 0 {
                120
            } else {
                self.timeout_secs
            },
        }
    }
}

/// The settings, with defaults for what was left open.
pub open spec fn completed(c: GLlm) -> GLlm {
    GLlm {
        base_url: if c.base_url.len() == 0 {
            "https://api.openai.com/v1"@
        } else {
            c.base_url
        },
        api_key: c.api_key,
        model: if c.model.len() == 0 {
            "gpt-4o-mini"@
        } else {
            c.model
        },
        timeout_secs: if c.timeout_secs == 0 {
            120
        } else {
            c.timeout_secs
        },
    }
}

/// Completed settings leave nothing open, and completing them again changes
/// nothing.
pub proof fn law_defaults_once(c: GLlm)
    ensures
        completed(completed(c)) == completed(c),
        completed(c).base_url.len() > 0,
        completed(c).model.len() > 0,
        completed(c).timeout_secs != 0,
{
    reveal_strlit("https://api.openai.com/v1");
    reveal_strlit("gpt-4o-mini");
}

impl AgentConfig {
    pub open spec fn view(&self) -> GAgent {
        GAgent {
            model: self.model@,
            system: self.system@,
            schema: self.schema@,
            timeout_secs: self.timeout_secs as int,
            tiers: text::views(self.tiers@),
            guide: self.guide@,
        }
    }
}

impl ModelTier {
    pub open spec fn view(&self) -> GTier {
        GTier {
            model: self.model@,
            base_url: self.base_url@,
            api_key: self.api_key@,
            timeout_secs: self.timeout_secs as int,
            max_tokens: self.max_tokens as int,
        }
    }
}

impl AgentsConfig {
    /// The agents are well-formed.
    pub open spec fn wf(self) -> bool {
        self.agents.wf()
    }

    /// The agents by name.
    pub open spec fn view(&self) -> Map<Seq<char>, GAgent> {
        self.agents@.map_values(|a: AgentConfig| a@)
    }

    /// The agent of this name.
    pub fn get(&self, name: &str) -> (r: Option<&AgentConfig>)
        requires
            self.wf(),
        ensures
            match r {
                Some(a) => self@.dom().contains(name@) && a@ == self@[name@],
                None => !self@.dom().contains(name@),
            },
    {
        self.agents.get(name)
    }
}

impl TiersConfig {
    /// The tiers are well-formed.
    pub open spec fn wf(self) -> bool {
        self.tiers.wf()
    }

    /// The tiers by name.
    pub open spec fn view(&self) -> Map<Seq<char>, GTier> {
        self.tiers@.map_values(|t: ModelTier| t@)
    }
}

// ── Sections ──

/// The entries of a section, as values.
pub open spec fn entries_view(m: TextMap<String>) -> Map<Seq<char>, Seq<char>> {
    m@.map_values(|v: String| v@)
}

/// The sections, as values.
pub open spec fn sections_view(m: TextMap<TextMap<String>>) -> Map<
    Seq<char>,
    Map<Seq<char>, Seq<char>>,
> {
    m@.map_values(|v: TextMap<String>| entries_view(v))
}

/// The sections and each of their maps are well-formed.
pub open spec fn sections_wf(m: TextMap<TextMap<String>>) -> bool {
    m.wf() && forall|k: Seq<char>| #[trigger] m@.dom().contains(k) ==> m@[k].wf()
}

/// The length of the part of `s` before its comment, from the `i`-th character
/// on: a `#` starts one unless it stands between quotes.
pub open spec fn code_len(s: Seq<char>, i: int, single: bool, double: bool) -> int
    decreases s.len() - i,
{
    if i < 0 || i >= s.len() {
        s.len() as int
    } else if s[i] == '"' && !single {
        code_len(s, i + 1, single, !double)
    } else if s[i] == '\'' && !double {
        code_len(s, i + 1, !single, double)
    } else if s[i] == '#' && !single && !double {
        i
    } else {
        code_len(s, i + 1, single, double)
    }
}

/// A line without its comment.
pub open spec fn uncommented(s: Seq<char>) -> Seq<char> {
    s.take(code_len(s, 0, false, false))
}

/// A character of a key.
pub open spec fn key_char(c: char) -> bool {
    ('a' <= c && c <= 'z') || ('A' <= c && c <= 'Z') || ('0' <= c && c <= '9') || c == '_'
}

/// Whether a text is a key.
pub open spec fn is_key(s: Seq<char>) -> bool {
    s.len() > 0 && forall|i: int| 0 <= i < s.len() ==> key_char(#[trigger] s[i])
}

/// Whether a text starts and ends with this quote.
pub open spec fn quoted_by(s: Seq<char>, q: char) -> bool {
    s.len() > 0 && s[0] == q && s.last() == q
}

/// Whether a value is more than one lone quote.
pub open spec fn closed_value(raw: Seq<char>) -> bool {
    let t = text::trimmed(raw);
    (quoted_by(t, '"') || quoted_by(t, '\'')) ==> t.len() >= 2
}

/// What a value says: what stands between its quotes, or the value as it is.
pub open spec fn value_of(raw: Seq<char>) -> Seq<char> {
    let t = text::trimmed(raw);
    if quoted_by(t, '"') || quoted_by(t, '\'') {
        text::replace_spec(
            text::replace_spec(t.subrange(1, t.len() - 1), "\\\""@, "\""@),
            "\\\\"@,
            "\\"@,
        )
    } else {
        t
    }
}

/// The key and the value of a line.
pub open spec fn entry_of(line: Seq<char>) -> Option<(Seq<char>, Seq<char>)> {
    match text::split_once_spec(line, '=') {
        Some((k, v)) => if is_key(text::trimmed(k)) {
            Some((text::trimmed(k), value_of(v)))
        } else {
            None
        },
        None => None,
    }
}

/// Whether the value of a line is no lone quote.
pub open spec fn closed_line(line: Seq<char>) -> bool {
    match text::split_once_spec(line, '=') {
        Some((k, v)) => is_key(text::trimmed(k)) ==> closed_value(text::trimmed(v)),
        None => true,
    }
}

/// What has been read: the sections and the one that entries go to.
pub struct Reading {
    pub sections: Map<Seq<char>, Map<Seq<char>, Seq<char>>>,
    pub current: Seq<char>,
}

/// A line without its comment and the white space around it.
pub open spec fn line_of(raw: Seq<char>) -> Seq<char> {
    text::trimmed(uncommented(raw))
}

/// Whether a line opens a section.
pub open spec fn is_header(line: Seq<char>) -> bool {
    line.len() > 0 && line[0] == '[' && line.last() == ']'
}

/// The entries of a section that may not be there yet.
pub open spec fn entries_of(
    sections: Map<Seq<char>, Map<Seq<char>, Seq<char>>>,
    name: Seq<char>,
) -> Map<Seq<char>, Seq<char>> {
    if sections.dom().contains(name) {
        sections[name]
    } else {
        Map::empty()
    }
}

/// What has been read after one more line.
pub open spec fn read_line(r: Reading, raw: Seq<char>) -> Reading {
    let line = line_of(raw);
    if line.len() == 0 {
        r
    } else if is_header(line) {
        let name = text::trimmed(line.subrange(1, line.len() - 1));
        Reading {
            sections: r.sections.insert(name, entries_of(r.sections, name)),
            current: name,
        }
    } else {
        match entry_of(line) {
            Some((k, v)) => Reading {
                sections: r.sections.insert(
                    r.current,
                    entries_of(r.sections, r.current).insert(k, v),
                ),
                current: r.current,
            },
            None => r,
        }
    }
}

/// What has been read after the first `n` lines.
pub open spec fn read_lines(lines: Seq<Seq<char>>, n: int) -> Reading
    decreases n,
{
    if n <= 0 {
        Reading { sections: Map::empty(), current: Seq::empty() }
    } else {
        read_line(read_lines(lines, n - 1), lines[n - 1])
    }
}

/// The sections of a text.
pub open spec fn sections_of(s: Seq<char>) -> Map<Seq<char>, Map<Seq<char>, Seq<char>>> {
    read_lines(text::lines_spec(s), text::lines_spec(s).len() as int).sections
}

/// Whether a line can be read.
pub open spec fn readable_line(raw: Seq<char>) -> bool {
    let line = line_of(raw);
    line.len() == 0 || is_header(line) || closed_line(line)
}

/// Whether every line of a text can be read: no value is one lone quote.
pub open spec fn readable(s: Seq<char>) -> bool {
    forall|i: int|
        0 <= i < text::lines_spec(s).len() ==> readable_line(#[trigger] text::lines_spec(s)[i])
}

/// A line without its comment.
fn strip_toml_comment(line: &str) -> (r: String)
    ensures
        r@ == uncommented(line@),
{
    let chars = text::chars_of(line);
    let n: usize = chars.len();
    let mut single = false;
    let mut double = false;
    let mut i: usize = 0;
    let mut more = true;
    while i < n && more
        invariant
            i <= n,
            n == chars@.len(),
            chars@ == line@,
            more ==> code_len(line@, 0, false, false) == code_len(line@, i as int, single, double),
            !more ==> code_len(line@, 0, false, false) == i,
        decreases n - i + (if more {
            1int
        } else {
            0int
        }),
    {
        let c = chars[i];
        if c == '"' && !single {
            double = !double;
            i += 1;
        } else if c == '\'' && !double {
            single = !single;
            i += 1;
        } else if c == '#' && !single && !double {
            more = false;
        } else {
            i += 1;
        }
    }
    let r = text::string_of_range(chars.as_slice(), 0, i);
    assert(r@ =~= line@.take(i as int));
    r
}

/// Whether a text is a key.
fn looks_like_key(s: &str) -> (r: bool)
    ensures
        r == is_key(s@),
{
    let chars = text::chars_of(s);
    if chars.len() == 0 {
        return false;
    }
    let mut i: usize = 0;
    while i < chars.len()
        invariant
            i <= chars@.len(),
            chars@ == s@,
            forall|k: int| 0 <= k < i ==> key_char(#[trigger] s@[k]),
        decreases chars@.len() - i,
    {
        let c = chars[i];
        if !(('a' <= c && c <= 'z') || ('A' <= c && c <= 'Z') || ('0' <= c && c <= '9') || c
            == '_') {
            assert(!key_char(s@[i as int]));
            return false;
        }
        i += 1;
    }
    true
}

/// Whether a text starts and ends with this quote.
fn is_quoted_by(chars: &Vec<char>, q: char) -> (r: bool)
    ensures
        r == quoted_by(chars@, q),
{
    chars.len() > 0 && chars[0] == q && chars[chars.len() - 1] == q
}

/// What a value says: what stands between its quotes, or the value as it is.
fn parse_toml_value(raw: &str) -> (r: String)
    requires
        closed_value(raw@),
    ensures
        r@ == value_of(raw@),
{
    let t = text::trim(raw);
    let chars = text::chars_of(t.as_str());
    if is_quoted_by(&chars, '"') || is_quoted_by(&chars, '\'') {
        let inner = text::string_of_range(chars.as_slice(), 1, chars.len() - 1);
        proof {
            reveal_strlit("\\\"");
            reveal_strlit("\\\\");
        }
        let once = text::replace(inner.as_str(), "\\\"", "\"");
        text::replace(once.as_str(), "\\\\", "\\")
    } else {
        t
    }
}

/// The key and the value of a line.
fn split_toml_kv(line: &str) -> (r: Option<(String, String)>)
    requires
        closed_line(line@),
    ensures
        match r {
            Some((k, v)) => entry_of(line@) == Some((k@, v@)),
            None => entry_of(line@) is None,
        },
{
    match text::split_once(line, '=') {
        Some((k, v)) => {
            let key = text::trim(k.as_str());
            if !looks_like_key(key.as_str()) {
                return None;
            }
            let raw = text::trim(v.as_str());
            proof {
                text::lemma_trimmed_idempotent(v@);
            }
            let val = parse_toml_value(raw.as_str());
            Some((key, val))
        },
        None => None,
    }
}

/// Whether every line of a text can be read: no value is one lone quote.
pub fn is_readable(s: &str) -> (r: bool)
    ensures
        r == readable(s@),
{
    let lines = text::lines(s);
    let ghost lv = text::views(lines@);
    let mut i: usize = 0;
    while i < lines.len()
        invariant
            i <= lines@.len(),
            lv == text::views(lines@),
            lv == text::lines_spec(s@),
            forall|k: int| 0 <= k < i ==> readable_line(#[trigger] lv[k]),
        decreases lines@.len() - i,
    {
        let line = text::trim(strip_toml_comment(lines[i].as_str()).as_str());
        assert(line@ == line_of(lv[i as int]));
        let chars = text::chars_of(line.as_str());
        if chars.len() > 0 && !(chars[0] == '[' && chars[chars.len() - 1] == ']') {
            match text::split_once(line.as_str(), '=') {
                Some((k, v)) => {
                    let key = text::trim(k.as_str());
                    if looks_like_key(key.as_str()) {
                        let raw = text::trim(v.as_str());
                        proof {
                            text::lemma_trimmed_idempotent(v@);
                        }
                        let value = text::chars_of(raw.as_str());
                        if (is_quoted_by(&value, '"') || is_quoted_by(&value, '\'')) && value.len()
                            < 2 {
                            assert(!readable_line(lv[i as int]));
                            return false;
                        }
                    }
                },
                None => {},
            }
        }
        assert(readable_line(lv[i as int]));
        i += 1;
    }
    true
}

/// Adds an entry to a section, which comes into being where it is not there yet.
fn put(
    sections: &mut TextMap<TextMap<String>>,
    name: &str,
    k: String,
    v: String,
)
    requires
        sections_wf(*old(sections)),
    ensures
        sections_wf(*final(sections)),
        sections_view(*final(sections)) == sections_view(*old(sections)).insert(
            name@,
            entries_of(sections_view(*old(sections)), name@).insert(k@, v@),
        ),
{
    let ghost before = *sections;
    let ghost kv = k@;
    let ghost vv = v@;
    if sections.contains_key(name) {
        let mut m = sections.replace(name, TextMap::new());
        let ghost m0 = m;
        m.insert(k, v);
        assert(entries_view(m) =~= entries_view(m0).insert(kv, vv));
        let ghost m1 = m;
        let _ = sections.replace(name, m);
        assert(sections@ =~= before@.insert(name@, m1));
        assert(sections_view(*sections) =~= sections_view(before).insert(
            name@,
            entries_of(sections_view(before), name@).insert(kv, vv),
        ));
    } else {
        let mut m: TextMap<String> = TextMap::new();
        let ghost m0 = m;
        m.insert(k, v);
        assert(entries_view(m0) =~= Map::<Seq<char>, Seq<char>>::empty());
        assert(entries_view(m) =~= entries_view(m0).insert(kv, vv));
        sections.insert(name.to_owned(), m);
        assert(sections_view(*sections) =~= sections_view(before).insert(
            name@,
            entries_of(sections_view(before), name@).insert(kv, vv),
        ));
    }
}

/// Reads the sections of a text: headers in square brackets, and entries with
/// quoted texts, numbers or bare words.
pub fn parse_toml_sections(s: &str) -> (r: TextMap<TextMap<String>>)
    requires
        readable(s@),
    ensures
        sections_wf(r),
        sections_view(r) == sections_of(s@),
{
    let lines = text::lines(s);
    let ghost lv = text::views(lines@);
    let mut sections: TextMap<TextMap<String>> = TextMap::new();
    let mut current = String::new();
    let mut i: usize = 0;
    assert(sections_view(sections) =~= Map::empty());
    assert(current@ =~= Seq::<char>::empty());
    while i < lines.len()
        invariant
            i <= lines@.len(),
            lv == text::views(lines@),
            lv == text::lines_spec(s@),
            readable(s@),
            sections_wf(sections),
            sections_view(sections) == read_lines(lv, i as int).sections,
            current@ == read_lines(lv, i as int).current,
        decreases lines@.len() - i,
    {
        let line = text::trim(strip_toml_comment(lines[i].as_str()).as_str());
        let ghost before = sections;
        assert(line@ == line_of(lv[i as int]));
        assert(readable_line(text::lines_spec(s@)[i as int]));
        assert(read_lines(lv, i + 1) == read_line(read_lines(lv, i as int), lv[i as int]));
        let chars = text::chars_of(line.as_str());
        if chars.len() == 0 {
        } else if chars[0] == '[' && chars[chars.len() - 1] == ']' {
            assert(chars.len() >= 2);
            let inner = text::string_of_range(chars.as_slice(), 1, chars.len() - 1);
            current = text::trim(inner.as_str());
            if !sections.contains_key(current.as_str()) {
                sections.insert(current.as_str().to_owned(), TextMap::new());
            }
            assert(sections_view(sections) =~= sections_view(before).insert(
                current@,
                entries_of(sections_view(before), current@),
            )) by {
                assert forall|m: TextMap<String>| m@ == Map::<Seq<char>, String>::empty() implies (
                #[trigger] entries_view(m)) == Map::<Seq<char>, Seq<char>>::empty() by {
                    assert(entries_view(m) =~= Map::empty());
                }
            }
        } else {
            match split_toml_kv(line.as_str()) {
                Some((k, v)) => {
                    put(&mut sections, current.as_str(), k, v);
                },
                None => {},
            }
        }
        i += 1;
    }
    sections
}

// ── Reading the sections ──

/// The value of a key, or nothing.
pub open spec fn value_or_empty(kv: Map<Seq<char>, Seq<char>>, k: Seq<char>) -> Seq<char> {
    if kv.dom().contains(k) {
        kv[k]
    } else {
        Seq::empty()
    }
}

/// The number that a key has, or zero.
pub open spec fn number_or_zero(kv: Map<Seq<char>, Seq<char>>, k: Seq<char>) -> int {
    match text::unsigned_spec(value_or_empty(kv, k), u64::MAX as nat) {
        Some(n) => n as int,
        None => 0,
    }
}

/// The first of the texts with something in it, from the `i`-th on.
pub open spec fn first_full(vals: Seq<Seq<char>>, i: int) -> Seq<char>
    decreases vals.len() - i,
{
    if i >= vals.len() {
        Seq::empty()
    } else if vals[i].len() > 0 {
        vals[i]
    } else {
        first_full(vals, i + 1)
    }
}

/// What the section of the language model says, with its older names.
pub open spec fn llm_of(sections: Map<Seq<char>, Map<Seq<char>, Seq<char>>>) -> GLlm {
    let kv = entries_of(sections, "llm"@);
    completed(
        GLlm {
            base_url: first_full(
                seq![
                    value_or_empty(kv, "base_url"@),
                    value_or_empty(kv, "api_base"@),
                    value_or_empty(kv, "url"@),
                ],
                0,
            ),
            api_key: first_full(
                seq![value_or_empty(kv, "api_key"@), value_or_empty(kv, "key"@)],
                0,
            ),
            model: first_full(
                seq![value_or_empty(kv, "model"@), value_or_empty(kv, "default_model"@)],
                0,
            ),
            timeout_secs: match text::unsigned_spec(
                value_or_empty(kv, "timeout_secs"@),
                u64::MAX as nat,
            ) {
                Some(n) => n as int,
                None => number_or_zero(kv, "timeout"@),
            },
        },
    )
}

/// The pieces with something in them, trimmed, of the first `n`.
pub open spec fn full_pieces(parts: Seq<Seq<char>>, n: int) -> Seq<Seq<char>>
    decreases n,
{
    if n <= 0 {
        Seq::empty()
    } else if text::trimmed(parts[n - 1]).len() > 0 {
        full_pieces(parts, n - 1).push(text::trimmed(parts[n - 1]))
    } else {
        full_pieces(parts, n - 1)
    }
}

/// The entries of a list between commas.
pub open spec fn comma_list(s: Seq<char>) -> Seq<Seq<char>> {
    let parts = text::split_char_spec(s, ',');
    full_pieces(parts, parts.len() as int)
}

/// What a section says of an agent.
pub open spec fn agent_of(kv: Map<Seq<char>, Seq<char>>) -> GAgent {
    GAgent {
        model: value_or_empty(kv, "model"@),
        system: text::replace_spec(value_or_empty(kv, "system"@), "\\n"@, "\n"@),
        schema: text::replace_spec(value_or_empty(kv, "schema"@), "\\n"@, "\n"@),
        timeout_secs: number_or_zero(kv, "timeout_secs"@),
        tiers: comma_list(value_or_empty(kv, "tiers"@)),
        guide: text::replace_spec(value_or_empty(kv, "guide"@), "\\n"@, "\n"@),
    }
}

/// What a section says of a tier.
pub open spec fn tier_of(kv: Map<Seq<char>, Seq<char>>) -> GTier {
    GTier {
        model: value_or_empty(kv, "model"@),
        base_url: value_or_empty(kv, "base_url"@),
        api_key: value_or_empty(kv, "api_key"@),
        timeout_secs: number_or_zero(kv, "timeout_secs"@),
        max_tokens: number_or_zero(kv, "max_tokens"@),
    }
}

/// The agents: one for each section named `agents.` and a name.
pub open spec fn agents_of(sections: Map<Seq<char>, Map<Seq<char>, Seq<char>>>) -> Map<
    Seq<char>,
    GAgent,
> {
    Map::new(
        |n: Seq<char>| n.len() > 0 && sections.dom().contains("agents."@ + n),
        |n: Seq<char>| agent_of(sections["agents."@ + n]),
    )
}

/// The tiers: one for each section named `models.` and a name that has a model.
pub open spec fn tiers_of(sections: Map<Seq<char>, Map<Seq<char>, Seq<char>>>) -> Map<
    Seq<char>,
    GTier,
> {
    Map::new(
        |n: Seq<char>|
            n.len() > 0 && sections.dom().contains("models."@ + n) && value_or_empty(
                sections["models."@ + n],
                "model"@,
            ).len() > 0,
        |n: Seq<char>| tier_of(sections["models."@ + n]),
    )
}

/// The value of a key, or nothing.
fn get_or_empty(kv: &TextMap<String>, k: &str) -> (r: String)
    requires
        kv.wf(),
    ensures
        r@ == value_or_empty(entries_view(*kv), k@),
{
    match kv.get(k) {
        Some(v) => v.clone(),
        None => {
            let e = String::new();
            assert(e@ =~= Seq::<char>::empty());
            e
        },
    }
}

/// The number that a key has, or zero.
fn get_number(kv: &TextMap<String>, k: &str) -> (r: u64)
    requires
        kv.wf(),
    ensures
        r == number_or_zero(entries_view(*kv), k@),
{
    match text::parse_unsigned(get_or_empty(kv, k).as_str(), u64::MAX) {
        Some(n) => n,
        None => 0,
    }
}

/// The first of the texts with something in it.
fn first_nonempty(vals: &[String]) -> (r: String)
    ensures
        r@ == first_full(text::views(vals@), 0),
{
    let ghost vv = text::views(vals@);
    let mut i: usize = 0;
    while i < vals.len()
        invariant
            i <= vals@.len(),
            vv == text::views(vals@),
            first_full(vv, 0) == first_full(vv, i as int),
        decreases vals@.len() - i,
    {
        assert(vv[i as int] == vals@[i as int]@);
        if !vals[i].as_str().is_empty() {
            return vals[i].clone();
        }
        i += 1;
    }
    let e = String::new();
    assert(e@ =~= Seq::<char>::empty());
    e
}

/// What the entries of the section of the language model say.
fn llm_from_entries(kv: &TextMap<String>) -> (r: LlmConfig)
    requires
        kv.wf(),
    ensures
        forall|s: Map<Seq<char>, Map<Seq<char>, Seq<char>>>|
            entries_of(s, "llm"@) == entries_view(*kv) ==> r@ == #[trigger] llm_of(s),
{
    let ghost ev = entries_view(*kv);
    let timeout_secs = match text::parse_unsigned(
        get_or_empty(kv, "timeout_secs").as_str(),
        u64::MAX,
    ) {
        Some(n) => n,
        None => get_number(kv, "timeout"),
    };
    let urls: Vec<String> = vec![
        get_or_empty(kv, "base_url"),
        get_or_empty(kv, "api_base"),
        get_or_empty(kv, "url"),
    ];
    assert(text::views(urls@) =~= seq![
        value_or_empty(ev, "base_url"@),
        value_or_empty(ev, "api_base"@),
        value_or_empty(ev, "url"@),
    ]);
    let keys: Vec<String> = vec![get_or_empty(kv, "api_key"), get_or_empty(kv, "key")];
    assert(text::views(keys@) =~= seq![value_or_empty(ev, "api_key"@), value_or_empty(ev, "key"@)]);
    let models: Vec<String> = vec![get_or_empty(kv, "model"), get_or_empty(kv, "default_model")];
    assert(text::views(models@) =~= seq![
        value_or_empty(ev, "model"@),
        value_or_empty(ev, "default_model"@),
    ]);
    let c = LlmConfig {
        base_url: first_nonempty(urls.as_slice()),
        api_key: first_nonempty(keys.as_slice()),
        model: first_nonempty(models.as_slice()),
        timeout_secs,
    };
    c.with_defaults()
}

/// What the sections say of the language model.
pub fn llm_from_sections(sections: &TextMap<TextMap<String>>) -> (r: LlmConfig)
    requires
        sections_wf(*sections),
    ensures
        r@ == llm_of(sections_view(*sections)),
{
    match sections.get("llm") {
        Some(kv) => llm_from_entries(kv),
        None => {
            let empty: TextMap<String> = TextMap::new();
            assert(entries_view(empty) =~= Map::<Seq<char>, Seq<char>>::empty());
            llm_from_entries(&empty)
        },
    }
}

/// The entries of a list between commas.
fn split_commas(s: &str) -> (r: Vec<String>)
    ensures
        text::views(r@) == comma_list(s@),
{
    let parts = text::split_char(s, ',');
    let ghost pv = text::views(parts@);
    let mut out: Vec<String> = Vec::new();
    let mut i: usize = 0;
    assert(text::views(out@) =~= Seq::<Seq<char>>::empty());
    while i < parts.len()
        invariant
            i <= parts@.len(),
            pv == text::views(parts@),
            text::views(out@) == full_pieces(pv, i as int),
        decreases parts@.len() - i,
    {
        let t = text::trim(parts[i].as_str());
        assert(pv[i as int] == parts@[i as int]@);
        if !t.as_str().is_empty() {
            let ghost tv = t@;
            let ghost before = out@;
            out.push(t);
            assert(text::views(out@) =~= text::views(before).push(tv));
        }
        i += 1;
    }
    out
}

/// What a section says of an agent.
fn agent_from(kv: &TextMap<String>) -> (r: AgentConfig)
    requires
        kv.wf(),
    ensures
        r@ == agent_of(entries_view(*kv)),
{
    proof {
        reveal_strlit("\\n");
    }
    let system = get_or_empty(kv, "system");
    let guide = get_or_empty(kv, "guide");
    let tiers = get_or_empty(kv, "tiers");
    AgentConfig {
        model: get_or_empty(kv, "model"),
        system: text::replace(system.as_str(), "\\n", "\n"),
        schema: text::replace(get_or_empty(kv, "schema").as_str(), "\\n", "\n"),
        timeout_secs: get_number(kv, "timeout_secs"),
        tiers: split_commas(tiers.as_str()),
        guide: text::replace(guide.as_str(), "\\n", "\n"),
    }
}

/// What a section says of a tier.
fn tier_from(kv: &TextMap<String>) -> (r: ModelTier)
    requires
        kv.wf(),
    ensures
        r@ == tier_of(entries_view(*kv)),
{
    ModelTier {
        model: get_or_empty(kv, "model"),
        base_url: get_or_empty(kv, "base_url"),
        api_key: get_or_empty(kv, "api_key"),
        timeout_secs: get_number(kv, "timeout_secs"),
        max_tokens: get_number(kv, "max_tokens"),
    }
}

/// Some of the first `n` sections has this name.
spec fn named_before(keys: Seq<Seq<char>>, n: int, name: Seq<char>) -> bool {
    exists|j: int| 0 <= j < n && #[trigger] keys[j] == name
}

proof fn lemma_prefixed(p: Seq<char>, n: Seq<char>)
    ensures
        p.is_prefix_of(p + n),
        (p + n).skip(p.len() as int) == n,
{
    assert((p + n).subrange(0, p.len() as int) =~= p);
    assert((p + n).skip(p.len() as int) =~= n);
}

proof fn lemma_unprefixed(p: Seq<char>, s: Seq<char>)
    requires
        p.is_prefix_of(s),
    ensures
        p + s.skip(p.len() as int) == s,
{
    assert(p + s.skip(p.len() as int) =~= s);
}

/// What the sections say of the agents: each section named `agents.` and a name
/// is one.
pub fn agents_from_sections(sections: &TextMap<TextMap<String>>) -> (r: AgentsConfig)
    requires
        sections_wf(*sections),
    ensures
        r.wf(),
        r@ == agents_of(sections_view(*sections)),
{
    let ghost sv = sections_view(*sections);
    let ghost keys = sections.keys();
    let mut out = AgentsConfig { agents: TextMap::new() };
    let mut i: usize = 0;
    while i < sections.len()
        invariant
            i <= keys.len(),
            keys == sections.keys(),
            sv == sections_view(*sections),
            sections_wf(*sections),
            out.wf(),
            forall|n: Seq<char>|
                #![trigger out@.dom().contains(n)]
                out@.dom().contains(n) <==> n.len() > 0 && named_before(
                    keys,
                    i as int,
                    "agents."@ + n,
                ),
            forall|n: Seq<char>| #[trigger]
                out@.dom().contains(n) ==> out@[n] == agent_of(sv["agents."@ + n]),
        decreases keys.len() - i,
    {
        let sec = sections.key_at(i);
        let ghost before = out@;
        proof {
            sections.lemma_entry(i as int);
        }
        match text::strip_prefix(sec.as_str(), "agents.") {
            Some(name) => {
                proof {
                    lemma_unprefixed("agents."@, sec@);
                }
                if !name.as_str().is_empty() {
                    let kv = sections.value_at(i);
                    let agent = agent_from(kv);
                    let ghost nv = name@;
                    out.agents.insert(name, agent);
                    assert(out@ =~= before.insert(nv, agent@));
                    assert(sv["agents."@ + nv] == entries_view(*kv));
                }
            },
            None => {},
        }
        proof {
            assert forall|n: Seq<char>| #![trigger out@.dom().contains(n)]
                out@.dom().contains(n) <==> n.len() > 0 && named_before(
                keys,
                i + 1,
                "agents."@ + n,
            ) by {
                lemma_prefixed("agents."@, n);
                if named_before(keys, i + 1, "agents."@ + n) {
                    let j = choose|j: int| 0 <= j < i + 1 && #[trigger] keys[j] == "agents."@ + n;
                    if j < i {
                        assert(named_before(keys, i as int, "agents."@ + n));
                    }
                }
                if named_before(keys, i as int, "agents."@ + n) {
                    let j = choose|j: int| 0 <= j < i && #[trigger] keys[j] == "agents."@ + n;
                    assert(keys[j] == "agents."@ + n);
                }
                assert(before.dom().contains(n) <==> n.len() > 0 && named_before(
                    keys,
                    i as int,
                    "agents."@ + n,
                ));
                assert(keys[i as int] == sec@);
            }
        }
        i += 1;
    }
    proof {
        let want = agents_of(sv);
        assert forall|n: Seq<char>| out@.dom().contains(n) <==> want.dom().contains(n) by {
            let k = "agents."@ + n;
            if named_before(keys, keys.len() as int, k) {
                let j = choose|j: int| 0 <= j < keys.len() && #[trigger] keys[j] == k;
                sections.lemma_entry(j);
            }
            if sv.dom().contains(k) {
                assert(sections@.dom().contains(k));
                assert(keys.contains(k));
                let j = choose|j: int| 0 <= j < keys.len() && keys[j] == k;
                assert(keys[j] == k);
            }
        }
        assert(out@ =~= want);
    }
    out
}

/// What the sections say of the tiers: each section named `models.` and a name
/// is one, if it has a model.
pub fn tiers_from_sections(sections: &TextMap<TextMap<String>>) -> (r: TiersConfig)
    requires
        sections_wf(*sections),
    ensures
        r.wf(),
        r@ == tiers_of(sections_view(*sections)),
{
    let ghost sv = sections_view(*sections);
    let ghost keys = sections.keys();
    let mut out = TiersConfig { tiers: TextMap::new() };
    let mut i: usize = 0;
    while i < sections.len()
        invariant
            i <= keys.len(),
            keys == sections.keys(),
            sv == sections_view(*sections),
            sections_wf(*sections),
            out.wf(),
            forall|n: Seq<char>|
                #![trigger out@.dom().contains(n)]
                out@.dom().contains(n) <==> n.len() > 0 && named_before(
                    keys,
                    i as int,
                    "models."@ + n,
                ) && value_or_empty(sv["models."@ + n], "model"@).len() > 0,
            forall|n: Seq<char>| #[trigger]
                out@.dom().contains(n) ==> out@[n] == tier_of(sv["models."@ + n]),
        decreases keys.len() - i,
    {
        let sec = sections.key_at(i);
        let ghost before = out@;
        proof {
            sections.lemma_entry(i as int);
        }
        match text::strip_prefix(sec.as_str(), "models.") {
            Some(name) => {
                proof {
                    lemma_unprefixed("models."@, sec@);
                }
                if !name.as_str().is_empty() {
                    let kv = sections.value_at(i);
                    assert(sv["models."@ + name@] == entries_view(*kv));
                    let tier = tier_from(kv);
                    if !tier.model.as_str().is_empty() {
                        let ghost nv = name@;
                        out.tiers.insert(name, tier);
                        assert(out@ =~= before.insert(nv, tier@));
                    }
                }
            },
            None => {},
        }
        proof {
            assert forall|n: Seq<char>| #![trigger out@.dom().contains(n)]
                out@.dom().contains(n) <==> n.len() > 0 && named_before(
                keys,
                i + 1,
                "models."@ + n,
            ) && value_or_empty(sv["models."@ + n], "model"@).len() > 0 by {
                lemma_prefixed("models."@, n);
                if named_before(keys, i + 1, "models."@ + n) {
                    let j = choose|j: int| 0 <= j < i + 1 && #[trigger] keys[j] == "models."@ + n;
                    if j < i {
                        assert(named_before(keys, i as int, "models."@ + n));
                    }
                }
                if named_before(keys, i as int, "models."@ + n) {
                    let j = choose|j: int| 0 <= j < i && #[trigger] keys[j] == "models."@ + n;
                    assert(keys[j] == "models."@ + n);
                }
                assert(before.dom().contains(n) <==> n.len() > 0 && named_before(
                    keys,
                    i as int,
                    "models."@ + n,
                ) && value_or_empty(sv["models."@ + n], "model"@).len() > 0);
                assert(keys[i as int] == sec@);
            }
        }
        i += 1;
    }
    proof {
        let want = tiers_of(sv);
        assert forall|n: Seq<char>| out@.dom().contains(n) <==> want.dom().contains(n) by {
            let k = "models."@ + n;
            if named_before(keys, keys.len() as int, k) {
                let j = choose|j: int| 0 <= j < keys.len() && #[trigger] keys[j] == k;
                sections.lemma_entry(j);
            }
            if sv.dom().contains(k) {
                assert(sections@.dom().contains(k));
                assert(keys.contains(k));
                let j = choose|j: int| 0 <= j < keys.len() && keys[j] == k;
                assert(keys[j] == k);
            }
        }
        assert(out@ =~= want);
    }
    out
}

// ── Places ──

/// Where to look for the configuration, each place as the parts of its path:
/// the file that was asked for, the working directory, and the home directory.
pub open spec fn places(
    asked: Option<Seq<char>>,
    home: Option<Seq<char>>,
    profile: Option<Seq<char>>,
) -> Seq<Seq<Seq<char>>> {
    let first: Seq<Seq<Seq<char>>> = match asked {
        Some(p) if text::trimmed(p).len() > 0 => seq![seq![text::trimmed(p)]],
        _ => Seq::empty(),
    };
    let base = match home {
        Some(h) => h,
        None => match profile {
            Some(p) => p,
            None => Seq::empty(),
        },
    };
    let near = first + seq![seq!["config.toml"@], seq!["ductile.toml"@]];
    if base.len() > 0 {
        near + seq![
            seq![base, ".config"@, "ductile"@, "config.toml"@],
            seq![base, ".local"@, "share"@, "ductile"@, "config.toml"@],
        ]
    } else {
        near
    }
}

/// Paths as values.
pub open spec fn path_views(v: Seq<Vec<String>>) -> Seq<Seq<Seq<char>>> {
    v.map_values(|p: Vec<String>| text::views(p@))
}

/// Where to look for the configuration, each place as the parts of its path.
pub fn config_search_paths(
    asked: &Option<String>,
    home: &Option<String>,
    profile: &Option<String>,
) -> (r: Vec<Vec<String>>)
    ensures
        path_views(r@) == places(
            text::opt_view(*asked),
            text::opt_view(*home),
            text::opt_view(*profile),
        ),
{
    let mut out: Vec<Vec<String>> = Vec::new();
    assert(path_views(out@) =~= Seq::<Seq<Seq<char>>>::empty());
    match asked {
        Some(p) => {
            let t = text::trim(p.as_str());
            if !t.as_str().is_empty() {
                let ghost tv = t@;
                let one: Vec<String> = vec![t];
                assert(text::views(one@) =~= seq![tv]);
                out.push(one);
                assert(path_views(out@) =~= seq![seq![tv]]);
            }
        },
        None => {},
    }
    let ghost first = path_views(out@);
    let a: Vec<String> = vec!["config.toml".to_owned()];
    assert(text::views(a@) =~= seq!["config.toml"@]);
    out.push(a);
    let b: Vec<String> = vec!["ductile.toml".to_owned()];
    assert(text::views(b@) =~= seq!["ductile.toml"@]);
    out.push(b);
    let ghost near = first + seq![seq!["config.toml"@], seq!["ductile.toml"@]];
    assert(path_views(out@) =~= near);
    let base: String = match home {
        Some(h) => h.clone(),
        None => match profile {
            Some(p) => p.clone(),
            None => {
                let e = String::new();
                assert(e@ =~= Seq::<char>::empty());
                e
            },
        },
    };
    if !base.as_str().is_empty() {
        let ghost bv = base@;
        let c: Vec<String> = vec![
            base.clone(),
            ".config".to_owned(),
            "ductile".to_owned(),
            "config.toml".to_owned(),
        ];
        assert(text::views(c@) =~= seq![bv, ".config"@, "ductile"@, "config.toml"@]);
        out.push(c);
        let d: Vec<String> = vec![
            base,
            ".local".to_owned(),
            "share".to_owned(),
            "ductile".to_owned(),
            "config.toml".to_owned(),
        ];
        assert(text::views(d@) =~= seq![bv, ".local"@, "share"@, "ductile"@, "config.toml"@]);
        out.push(d);
        assert(path_views(out@) =~= near + seq![
            seq![bv, ".config"@, "ductile"@, "config.toml"@],
            seq![bv, ".local"@, "share"@, "ductile"@, "config.toml"@],
        ]);
    }
    out
}

// ── The environment of a call ──

/// A variable, if it has a value and is not held yet.
pub open spec fn variable(held: Seq<Seq<char>>, key: Seq<char>, val: Seq<char>) -> Seq<
    (Seq<char>, Seq<char>),
> {
    if val.len() > 0 && !held.contains(key) {
        seq![(key, val)]
    } else {
        Seq::empty()
    }
}

/// The variables that a call is given beside those that are held already.
pub open spec fn variables(c: GLlm, held: Seq<Seq<char>>) -> Seq<(Seq<char>, Seq<char>)> {
    variable(held, "OPENAI_BASE_URL"@, c.base_url) + variable(held, "OPENAI_API_KEY"@, c.api_key)
        + variable(held, "OPENAI_MODEL"@, c.model) + variable(
        held,
        "OPENAI_TIMEOUT_SECS"@,
        if c.timeout_secs > 0 {
            text::dec(c.timeout_secs as nat)
        } else {
            Seq::empty()
        },
    )
}

/// Variables as values.
pub open spec fn variable_views(v: Seq<(String, String)>) -> Seq<(Seq<char>, Seq<char>)> {
    v.map_values(|p: (String, String)| (p.0@, p.1@))
}

/// Adds a variable, if it has a value and is not held yet.
fn set_if_absent(out: &mut Vec<(String, String)>, held: &Vec<String>, key: &str, val: &str)
    ensures
        variable_views(final(out)@) == variable_views(old(out)@) + variable(
            text::views(held@),
            key@,
            val@,
        ),
{
    let ghost before = variable_views(out@);
    if !val.is_empty() && !text::is_one_of(key, held) {
        out.push((key.to_owned(), val.to_owned()));
        assert(variable_views(out@) =~= before + seq![(key@, val@)]);
    } else {
        assert(variable_views(out@) =~= before + Seq::<(Seq<char>, Seq<char>)>::empty());
    }
}

/// The variables that a call is given beside those that are held already, which
/// go before the configuration.
pub fn apply_llm_env_from_config(cfg: &LlmConfig, held: &Vec<String>) -> (r: Vec<(String, String)>)
    ensures
        variable_views(r@) == variables(cfg@, text::views(held@)),
{
    let mut out: Vec<(String, String)> = Vec::new();
    set_if_absent(&mut out, held, "OPENAI_BASE_URL", cfg.base_url.as_str());
    set_if_absent(&mut out, held, "OPENAI_API_KEY", cfg.api_key.as_str());
    set_if_absent(&mut out, held, "OPENAI_MODEL", cfg.model.as_str());
    let t = if cfg.timeout_secs > 0 {
        text::decimal(cfg.timeout_secs as u128)
    } else {
        let e = String::new();
        assert(e@ =~= Seq::<char>::empty());
        e
    };
    set_if_absent(&mut out, held, "OPENAI_TIMEOUT_SECS", t.as_str());
    assert(variable_views(out@) =~= variables(cfg@, text::views(held@)));
    out
}

/// A variable that is held already is never given another value.
pub proof fn law_environment_goes_first(c: GLlm, held: Seq<Seq<char>>, i: int)
    requires
        0 <= i < variables(c, held).len(),
    ensures
        !held.contains(variables(c, held)[i].0),
        variables(c, held)[i].1.len() > 0,
{
    let a = variable(held, "OPENAI_BASE_URL"@, c.base_url);
    let b = a + variable(held, "OPENAI_API_KEY"@, c.api_key);
    let d = b + variable(held, "OPENAI_MODEL"@, c.model);
    let e = variables(c, held);
    if i < a.len() {
        assert(e[i] == a[i]);
    } else if i < b.len() {
        assert(e[i] == b[i]);
    } else if i < d.len() {
        assert(e[i] == d[i]);
    }
}

// ── Choosing a tier ──

/// How demanding a call is: by the fields it must fill, and by the lengths of
/// its prompt and its system text.
pub open spec fn complexity(prompt_len: int, system_len: int, schema_fields: int) -> int {
    (if schema_fields >= 6 {
        2int
    } else if schema_fields >= 3 {
        1
    } else {
        0
    }) + (if prompt_len > 4000 {
        2int
    } else if prompt_len > 1200 {
        1
    } else {
        0
    }) + (if system_len > 400 {
        1int
    } else {
        0
    })
}

/// How demanding a call is.
pub fn complexity_score(prompt_len: usize, system_len: usize, schema_fields: usize) -> (r: u32)
    ensures
        r == complexity(prompt_len as int, system_len as int, schema_fields as int),
{
    let a: u32 = if schema_fields >= 6 {
        2
    } else if schema_fields >= 3 {
        1
    } else {
        0
    };
    let b: u32 = if prompt_len > 4000 {
        2
    } else if prompt_len > 1200 {
        1
    } else {
        0
    };
    let c: u32 = if system_len > 400 {
        1
    } else {
        0
    };
    a + b + c
}

/// Where on a ladder of so many tiers a call so demanding starts.
pub open spec fn tier_index(score: int, ladder_len: int) -> int {
    let want: int = if score <= 1 {
        0
    } else if score <= 3 {
        1
    } else {
        2
    };
    if ladder_len <= 0 {
        0
    } else if want < ladder_len {
        want
    } else {
        ladder_len - 1
    }
}

/// Where on a ladder of so many tiers a call so demanding starts.
pub fn score_to_tier_index(score: u32, ladder_len: usize) -> (r: usize)
    ensures
        r == tier_index(score as int, ladder_len as int),
{
    if ladder_len == 0 {
        return 0;
    }
    let want: usize = if score <= 1 {
        0
    } else if score <= 3 {
        1
    } else {
        2
    };
    if want < ladder_len {
        want
    } else {
        ladder_len - 1
    }
}

/// The place of the first tier of the ladder that has no model, from the `i`-th
/// on.
pub open spec fn undefined_from(ladder: Seq<Seq<char>>, known: Set<Seq<char>>, i: int) -> Option<
    int,
>
    decreases ladder.len() - i,
{
    if i >= ladder.len() {
        None
    } else if !known.contains(ladder[i]) {
        Some(i)
    } else {
        undefined_from(ladder, known, i + 1)
    }
}

/// The place of a tier on the ladder, from the `i`-th on.
pub open spec fn rung_from(ladder: Seq<Seq<char>>, want: Seq<char>, i: int) -> Option<int>
    decreases ladder.len() - i,
{
    if i >= ladder.len() {
        None
    } else if ladder[i] == want {
        Some(i)
    } else {
        rung_from(ladder, want, i + 1)
    }
}

/// The names of the known tiers.
pub open spec fn known_names(known: Set<Seq<char>>) -> Seq<char> {
    if order::in_order(known).len() == 0 {
        "(none)"@
    } else {
        text::join_spec(order::in_order(known), ", "@)
    }
}

/// Where a call starts on its agent's ladder, or why it cannot start.
pub open spec fn tier_start(
    ladder: Seq<Seq<char>>,
    known: Set<Seq<char>>,
    score: int,
    asked: Option<Seq<char>>,
) -> Result<int, Seq<char>> {
    match undefined_from(ladder, known, 0) {
        Some(i) => Err(
            "agent ladder references undefined tier '"@ + ladder[i] + "' — define [models."@
                + ladder[i] + "] in config.toml. Known tiers: ["@ + known_names(known) + "]"@,
        ),
        None => if ladder.len() == 0 {
            Ok(0)
        } else {
            match asked {
                Some(want) => match rung_from(ladder, want, 0) {
                    Some(i) => Ok(i),
                    None => Err(
                        "tier '"@ + want + "' not in agent ladder ["@ + text::join_spec(
                            ladder,
                            ", "@,
                        ) + "] — pick one of the ladder or drop tier="@,
                    ),
                },
                None => Ok(tier_index(score, ladder.len() as int)),
            }
        },
    }
}

/// The names of the known tiers.
fn list_known(tiers: &TextMap<ModelTier>) -> (r: String)
    requires
        tiers.wf(),
    ensures
        r@ == known_names(tiers@.dom()),
{
    let ghost keys = tiers.keys();
    proof {
        assert(tiers@.dom() =~= keys.to_set());
        order::lemma_in_order(keys);
    }
    if tiers.len() == 0 {
        return "(none)".to_owned();
    }
    let mut names: Vec<String> = Vec::new();
    let mut i: usize = 0;
    assert(text::views(names@) =~= keys.take(0));
    while i < tiers.len()
        invariant
            i <= keys.len(),
            keys == tiers.keys(),
            tiers.wf(),
            text::views(names@) == keys.take(i as int),
        decreases keys.len() - i,
    {
        let ghost before = names@;
        names.push(tiers.key_at(i).clone());
        assert(text::views(names@) =~= text::views(before).push(keys[i as int]));
        assert(keys.take(i + 1) =~= keys.take(i as int).push(keys[i as int]));
        i += 1;
    }
    assert(keys.take(keys.len() as int) =~= keys);
    text::join(names.as_slice(), ", ")
}

/// The place of a tier on the ladder.
fn find_rung(ladder: &Vec<String>, want: &str) -> (r: Option<usize>)
    ensures
        text::opt_int(r) == rung_from(text::views(ladder@), want@, 0),
        match r {
            Some(i) => i < ladder@.len(),
            None => true,
        },
{
    let ghost lv = text::views(ladder@);
    let mut i: usize = 0;
    while i < ladder.len()
        invariant
            i <= ladder@.len(),
            lv == text::views(ladder@),
            rung_from(lv, want@, 0) == rung_from(lv, want@, i as int),
        decreases ladder@.len() - i,
    {
        assert(lv[i as int] == ladder@[i as int]@);
        if text::same(ladder[i].as_str(), want) {
            return Some(i);
        }
        i += 1;
    }
    None
}

/// The ladder of an agent and where a call starts on it: at the tier that was
/// asked for, else by how demanding the call is. A ladder with a tier that has
/// no model is refused, and so is a tier that is not on the ladder.
pub fn resolve_tier_start(
    agent: &AgentConfig,
    tiers_cfg: &TiersConfig,
    prompt_len: usize,
    system_len: usize,
    schema_fields: usize,
    tier_arg: Option<&str>,
) -> (r: Result<(Vec<String>, usize), String>)
    requires
        tiers_cfg.wf(),
    ensures
        match r {
            Ok((ladder, i)) => text::views(ladder@) == agent@.tiers && tier_start(
                agent@.tiers,
                tiers_cfg@.dom(),
                complexity(prompt_len as int, system_len as int, schema_fields as int),
                (match tier_arg {
                    Some(t) => Some(t@),
                    None => None,
                }),
            ) == Ok::<int, Seq<char>>(i as int),
            Err(e) => tier_start(
                agent@.tiers,
                tiers_cfg@.dom(),
                complexity(prompt_len as int, system_len as int, schema_fields as int),
                (match tier_arg {
                    Some(t) => Some(t@),
                    None => None,
                }),
            ) == Err::<int, Seq<char>>(e@),
        },
{
    let ghost lv = agent@.tiers;
    let ghost known = tiers_cfg@.dom();
    let mut i: usize = 0;
    assert(known =~= tiers_cfg.tiers@.dom());
    while i < agent.tiers.len()
        invariant
            i <= agent.tiers@.len(),
            lv == text::views(agent.tiers@),
            lv == agent@.tiers,
            known == tiers_cfg@.dom(),
            known == tiers_cfg.tiers@.dom(),
            tiers_cfg.wf(),
            undefined_from(lv, known, 0) == undefined_from(lv, known, i as int),
        decreases agent.tiers@.len() - i,
    {
        let t = agent.tiers[i].as_str();
        assert(t@ == lv[i as int]);
        if !tiers_cfg.tiers.contains_key(t) {
            let mut m = "agent ladder references undefined tier '".to_owned();
            m.append(t);
            m.append("' — define [models.");
            m.append(t);
            m.append("] in config.toml. Known tiers: [");
            m.append(list_known(&tiers_cfg.tiers).as_str());
            m.append("]");
            return Err(m);
        }
        i += 1;
    }
    let ladder = text::copy_all(&agent.tiers);
    if ladder.len() == 0 {
        assert(lv.len() == text::views(ladder@).len());
        return Ok((ladder, 0));
    }
    assert(lv.len() == text::views(ladder@).len());
    match tier_arg {
        Some(want) => match find_rung(&ladder, want) {
            Some(k) => Ok((ladder, k)),
            None => {
                let mut m = "tier '".to_owned();
                m.append(want);
                m.append("' not in agent ladder [");
                m.append(text::join(ladder.as_slice(), ", ").as_str());
                m.append("] — pick one of the ladder or drop tier=");
                Err(m)
            },
        },
        None => {
            let score = complexity_score(prompt_len, system_len, schema_fields);
            let idx = score_to_tier_index(score, ladder.len());
            Ok((ladder, idx))
        },
    }
}

proof fn lemma_all_defined(ladder: Seq<Seq<char>>, known: Set<Seq<char>>, i: int)
    requires
        0 <= i <= ladder.len(),
        undefined_from(ladder, known, i) is None,
    ensures
        forall|k: int| i <= k < ladder.len() ==> known.contains(#[trigger] ladder[k]),
    decreases ladder.len() - i,
{
    if i < ladder.len() {
        lemma_all_defined(ladder, known, i + 1);
    }
}

proof fn lemma_rung(ladder: Seq<Seq<char>>, want: Seq<char>, i: int)
    requires
        0 <= i <= ladder.len(),
    ensures
        match rung_from(ladder, want, i) {
            Some(k) => i <= k < ladder.len() && ladder[k] == want,
            None => forall|k: int| i <= k < ladder.len() ==> #[trigger] ladder[k] != want,
        },
    decreases ladder.len() - i,
{
    if i < ladder.len() {
        lemma_rung(ladder, want, i + 1);
    }
}

/// A call that starts has a model on every tier of its ladder, starts on the
/// ladder, and at the tier that was asked for.
pub proof fn law_ladders_are_whole(
    ladder: Seq<Seq<char>>,
    known: Set<Seq<char>>,
    score: int,
    asked: Option<Seq<char>>,
)
    requires
        tier_start(ladder, known, score, asked) is Ok,
    ensures
        forall|k: int| 0 <= k < ladder.len() ==> known.contains(#[trigger] ladder[k]),
        ladder.len() > 0 ==> 0 <= tier_start(ladder, known, score, asked)->Ok_0 < ladder.len(),
        ladder.len() > 0 && asked is Some ==> ladder[tier_start(
            ladder,
            known,
            score,
            asked,
        )->Ok_0] == asked->0,
{
    lemma_all_defined(ladder, known, 0);
    match asked {
        Some(want) => {
            lemma_rung(ladder, want, 0);
        },
        None => {},
    }
}

/// A more demanding call never starts on a lower tier.
pub proof fn law_demand_climbs(
    prompt: int,
    system: int,
    fields: int,
    more_prompt: int,
    more_system: int,
    more_fields: int,
    ladder_len: int,
)
    requires
        prompt <= more_prompt,
        system <= more_system,
        fields <= more_fields,
    ensures
        tier_index(complexity(prompt, system, fields), ladder_len) <= tier_index(
            complexity(more_prompt, more_system, more_fields),
            ladder_len,
        ),
{
}

} // verus!

//! What a configuration says, where it is looked for, and how an agent's ladder is
//! climbed.

use crate::config;
use crate::config::{GLlm, Reading};
use crate::text;
use crate::text_laws;
use vstd::prelude::*;

verus! {

// ── Lines ──

/// A character that starts neither a comment nor a quotation.
pub open spec fn bare(c: char) -> bool {
    c != '#' && c != '"' && c != '\''
}

proof fn lemma_code(s: Seq<char>, i: int, k: int)
    requires
        0 <= i <= k <= s.len(),
        forall|j: int| i <= j < k ==> bare(#[trigger] s[j]),
        k < s.len() ==> s[k] == '#',
    ensures
        config::code_len(s, i, false, false) == k,
    decreases k - i,
{
    if i < k {
        assert(bare(s[i]));
        lemma_code(s, i + 1, k);
    }
}

proof fn lemma_quoted(s: Seq<char>, i: int, k: int)
    requires
        0 <= i <= k < s.len(),
        forall|j: int| i <= j < k ==> #[trigger] s[j] != '"',
        s[k] == '"',
    ensures
        config::code_len(s, i, false, true) == config::code_len(s, k + 1, false, false),
    decreases k - i,
{
    if i < k {
        assert(s[i] != '"');
        lemma_quoted(s, i + 1, k);
    }
}

proof fn lemma_bare(s: Seq<char>, i: int, k: int)
    requires
        0 <= i <= k <= s.len(),
        forall|j: int| i <= j < k ==> bare(#[trigger] s[j]),
    ensures
        config::code_len(s, i, false, false) == config::code_len(s, k, false, false),
    decreases k - i,
{
    if i < k {
        assert(bare(s[i]));
        lemma_bare(s, i + 1, k);
    }
}

/// A comment runs from its sign to the end of the line; a sign between quotes
/// starts none.
pub proof fn law_comments_come_off(a: Seq<char>, q: Seq<char>, b: Seq<char>, c: Seq<char>)
    requires
        forall|i: int| 0 <= i < a.len() ==> bare(#[trigger] a[i]),
        forall|i: int| 0 <= i < q.len() ==> #[trigger] q[i] != '"',
        forall|i: int| 0 <= i < b.len() ==> bare(#[trigger] b[i]),
    ensures
        config::uncommented(a) == a,
        config::uncommented(a + seq!['#'] + c) == a,
        config::uncommented(a + seq!['"'] + q + seq!['"'] + b + seq!['#'] + c) == a + seq!['"'] + q
            + seq!['"'] + b,
        config::uncommented(a + seq!['"'] + q + seq!['"'] + b) == a + seq!['"'] + q + seq!['"'] + b,
{
    lemma_code(a, 0, a.len() as int);
    assert(a.take(a.len() as int) =~= a);
    let s = a + seq!['#'] + c;
    assert forall|j: int| 0 <= j < a.len() implies bare(#[trigger] s[j]) by {
        assert(s[j] == a[j]);
    }
    lemma_code(s, 0, a.len() as int);
    assert(s.take(a.len() as int) =~= a);
    let h = a + seq!['"'] + q + seq!['"'] + b;
    lemma_quotation(a, q, b, Seq::empty());
    assert(h + Seq::<char>::empty() =~= h);
    assert(h.take(h.len() as int) =~= h);
    lemma_quotation(a, q, b, seq!['#'] + c);
    let t = a + seq!['"'] + q + seq!['"'] + b + seq!['#'] + c;
    assert(h + (seq!['#'] + c) =~= t);
    assert(t.take(h.len() as int) =~= h);
}

proof fn lemma_quotation(a: Seq<char>, q: Seq<char>, b: Seq<char>, c: Seq<char>)
    requires
        forall|i: int| 0 <= i < a.len() ==> bare(#[trigger] a[i]),
        forall|i: int| 0 <= i < q.len() ==> #[trigger] q[i] != '"',
        forall|i: int| 0 <= i < b.len() ==> bare(#[trigger] b[i]),
        c.len() > 0 ==> c[0] == '#',
    ensures
        config::code_len(a + seq!['"'] + q + seq!['"'] + b + c, 0, false, false) == a.len()
            + q.len() + b.len() + 2,
{
    let t = a + seq!['"'] + q + seq!['"'] + b + c;
    let n = a.len() as int;
    let m = n + 1 + q.len();
    assert forall|j: int| 0 <= j < n implies bare(#[trigger] t[j]) by {
        assert(t[j] == a[j]);
    }
    lemma_bare(t, 0, n);
    assert(t[n] == '"');
    assert forall|j: int| n + 1 <= j < m implies #[trigger] t[j] != '"' by {
        assert(t[j] == q[j - n - 1]);
    }
    assert(t[m] == '"');
    lemma_quoted(t, n + 1, m);
    assert forall|j: int| m + 1 <= j < m + 1 + b.len() implies bare(#[trigger] t[j]) by {
        assert(t[j] == b[j - m - 1]);
    }
    if c.len() > 0 {
        assert(t[m + 1 + b.len()] == c[0]);
    }
    lemma_code(t, m + 1, m + 1 + b.len());
}

/// A word that stands for itself as a value: without comments, quotes, slashes and
/// white space at its ends.
pub open spec fn simple(w: Seq<char>) -> bool {
    &&& forall|i: int| 0 <= i < w.len() ==> bare(#[trigger] w[i]) && w[i] != '\\'
    &&& w.len() > 0 ==> !text::is_space(w[0]) && !text::is_space(w.last())
}

proof fn lemma_no_replacing(w: Seq<char>, from: Seq<char>, to: Seq<char>)
    requires
        forall|i: int| 0 <= i < w.len() ==> #[trigger] w[i] != '\\',
        from.len() > 0,
        from[0] == '\\',
    ensures
        text::replace_spec(w, from, to) == w,
{
    if text::has(w, from) {
        let i = choose|i: int| text::occurs_at(w, from, i);
        assert(w.subrange(i, i + from.len())[0] == from[0]);
    }
    text_laws::law_replacing_goes_on(w, from, to, 0);
}

proof fn lemma_value(w: Seq<char>)
    requires
        simple(w),
    ensures
        w.len() > 0 ==> config::value_of(w) == w,
        config::value_of(seq!['"'] + w + seq!['"']) == w,
{
    reveal_strlit("\\\"");
    reveal_strlit("\\\\");
    let e = Seq::<char>::empty();
    text_laws::law_trimming_takes_the_ends(e, w, e);
    assert(e + w + e =~= w);
    let q = seq!['"'] + w + seq!['"'];
    text_laws::law_trimming_takes_the_ends(e, q, e);
    assert(e + q + e =~= q);
    assert(q.subrange(1, q.len() - 1) =~= w);
    lemma_no_replacing(w, "\\\""@, "\""@);
    lemma_no_replacing(w, "\\\\"@, "\\"@);
    if w.len() > 0 {
        assert(bare(w[0]));
    }
}

proof fn lemma_key_chars(c: char)
    ensures
        config::key_char(c) ==> !text::is_space(c) && bare(c) && c != '=' && c != '[',
{
}

/// An entry goes to the section that is open, under its key, with quotes around
/// its value or without; nothing else changes.
pub proof fn law_entries_go_to_the_open_section(r: Reading, k: Seq<char>, w: Seq<char>, quoted: bool)
    requires
        config::is_key(k),
        simple(w),
        !quoted ==> w.len() > 0,
    ensures
        ({
            let raw = k + seq!['='] + (if quoted {
                seq!['"'] + w + seq!['"']
            } else {
                w
            });
            let after = config::read_line(r, raw);
            &&& after.current == r.current
            &&& after.sections.dom() == r.sections.dom().insert(r.current)
            &&& after.sections[r.current] == config::entries_of(r.sections, r.current).insert(k, w)
            &&& forall|n: Seq<char>|
                n != r.current && r.sections.dom().contains(n) ==> #[trigger] after.sections[n]
                    == r.sections[n]
        }),
{
    let e = Seq::<char>::empty();
    let v = if quoted {
        seq!['"'] + w + seq!['"']
    } else {
        w
    };
    let raw = k + seq!['='] + v;
    let a = k + seq!['='];
    assert forall|i: int| 0 <= i < a.len() implies bare(#[trigger] a[i]) by {
        if i < k.len() {
            assert(config::key_char(k[i]));
            lemma_key_chars(k[i]);
        }
    }
    if quoted {
        assert forall|i: int| 0 <= i < w.len() implies #[trigger] w[i] != '"' by {
            assert(bare(w[i]));
        }
        law_comments_come_off(a, w, e, e);
        assert(a + seq!['"'] + w + seq!['"'] + e =~= raw);
    } else {
        assert forall|i: int| 0 <= i < raw.len() implies bare(#[trigger] raw[i]) by {
            if i < a.len() {
                assert(raw[i] == a[i]);
            } else {
                assert(raw[i] == w[i - a.len()]);
            }
        }
        law_comments_come_off(raw, e, e, e);
    }
    assert(config::key_char(k[0]));
    lemma_key_chars(k[0]);
    assert(raw[0] == k[0]);
    assert(raw.last() == v.last());
    text_laws::law_trimming_takes_the_ends(e, raw, e);
    assert(e + raw + e =~= raw);
    assert forall|i: int| 0 <= i < k.len() implies #[trigger] k[i] != '=' by {
        assert(config::key_char(k[i]));
        lemma_key_chars(k[i]);
    }
    text_laws::law_cut_at_the_first(k, '=', v);
    assert(config::key_char(k[k.len() - 1]));
    lemma_key_chars(k.last());
    text_laws::law_trimming_takes_the_ends(e, k, e);
    assert(e + k + e =~= k);
    lemma_value(w);
}

/// A name in brackets opens the section of that name and keeps all that was read.
pub proof fn law_headers_open_sections(r: Reading, name: Seq<char>)
    requires
        simple(name),
    ensures
        ({
            let after = config::read_line(r, seq!['['] + name + seq![']']);
            &&& after.current == name
            &&& after.sections.dom() == r.sections.dom().insert(name)
            &&& forall|n: Seq<char>|
                r.sections.dom().contains(n) ==> #[trigger] after.sections[n] == r.sections[n]
            &&& !r.sections.dom().contains(name) ==> after.sections[name].dom() == Set::<
                Seq<char>,
            >::empty()
        }),
{
    let e = Seq::<char>::empty();
    let raw = seq!['['] + name + seq![']'];
    assert forall|i: int| 0 <= i < raw.len() implies bare(#[trigger] raw[i]) by {
        if 0 < i < raw.len() - 1 {
            assert(raw[i] == name[i - 1]);
        }
    }
    law_comments_come_off(raw, e, e, e);
    text_laws::law_trimming_takes_the_ends(e, raw, e);
    assert(e + raw + e =~= raw);
    assert(raw.subrange(1, raw.len() - 1) =~= name);
    text_laws::law_trimming_takes_the_ends(e, name, e);
    assert(e + name + e =~= name);
    if !r.sections.dom().contains(name) {
        assert(Map::<Seq<char>, Seq<char>>::empty().dom() =~= Set::<Seq<char>>::empty());
    }
}

/// A line with nothing before its comment changes nothing.
pub proof fn law_empty_lines_are_passed_over(r: Reading, a: Seq<char>, c: Seq<char>)
    requires
        text::blank(a),
    ensures
        config::read_line(r, a) == r,
        config::read_line(r, a + seq!['#'] + c) == r,
{
    let e = Seq::<char>::empty();
    assert forall|i: int| 0 <= i < a.len() implies bare(#[trigger] a[i]) by {
        assert(text::is_space(a[i]));
        lemma_spaces_are_bare(a[i]);
    }
    law_comments_come_off(a, e, e, c);
    text_laws::law_trimming_takes_the_ends(a, e, e);
    assert(a + e + e =~= a);
}

proof fn lemma_spaces_are_bare(c: char)
    ensures
        text::is_space(c) ==> bare(c),
{
}

// ── The language model ──

/// What was left open is filled in, and only that.
pub proof fn law_defaults_fill_gaps(c: GLlm)
    ensures
        c.base_url.len() > 0 ==> config::completed(c).base_url == c.base_url,
        c.base_url.len() == 0 ==> config::completed(c).base_url == "https://api.openai.com/v1"@,
        c.model.len() > 0 ==> config::completed(c).model == c.model,
        c.model.len() == 0 ==> config::completed(c).model == "gpt-4o-mini"@,
        c.timeout_secs != 0 ==> config::completed(c).timeout_secs == c.timeout_secs,
        c.timeout_secs == 0 ==> config::completed(c).timeout_secs == 120,
        config::completed(c).api_key == c.api_key,
{
}

/// Whether a section has something under this name.
pub open spec fn given(kv: Map<Seq<char>, Seq<char>>, k: Seq<char>) -> bool {
    kv.dom().contains(k) && kv[k].len() > 0
}

/// The settings of the language model stand in its section under their names; an
/// older name counts only where the newer ones say nothing.
pub proof fn law_newer_names_go_first(sections: Map<Seq<char>, Map<Seq<char>, Seq<char>>>)
    requires
        sections.dom().contains("llm"@),
    ensures
        ({
            let kv = sections["llm"@];
            let c = config::llm_of(sections);
            &&& given(kv, "base_url"@) ==> c.base_url == kv["base_url"@]
            &&& !given(kv, "base_url"@) && given(kv, "api_base"@) ==> c.base_url == kv["api_base"@]
            &&& !given(kv, "base_url"@) && !given(kv, "api_base"@) && given(kv, "url"@) ==> c.base_url
                == kv["url"@]
            &&& !given(kv, "base_url"@) && !given(kv, "api_base"@) && !given(kv, "url"@) ==> c.base_url
                == "https://api.openai.com/v1"@
            &&& given(kv, "api_key"@) ==> c.api_key == kv["api_key"@]
            &&& !given(kv, "api_key"@) && given(kv, "key"@) ==> c.api_key == kv["key"@]
            &&& !given(kv, "api_key"@) && !given(kv, "key"@) ==> c.api_key.len() == 0
            &&& given(kv, "model"@) ==> c.model == kv["model"@]
            &&& !given(kv, "model"@) && given(kv, "default_model"@) ==> c.model == kv["default_model"@]
            &&& !given(kv, "model"@) && !given(kv, "default_model"@) ==> c.model == "gpt-4o-mini"@
        }),
{
    reveal_with_fuel(config::first_full, 4);
    let kv = config::entries_of(sections, "llm"@);
    let b = seq![
        config::value_or_empty(kv, "base_url"@),
        config::value_or_empty(kv, "api_base"@),
        config::value_or_empty(kv, "url"@),
    ];
    let k = seq![config::value_or_empty(kv, "api_key"@), config::value_or_empty(kv, "key"@)];
    let m = seq![config::value_or_empty(kv, "model"@), config::value_or_empty(kv, "default_model"@)];
    assert(b.len() == 3 && k.len() == 2 && m.len() == 2);
}

/// The time that a call may take is the number of its setting, of the older one
/// where there is none, and two minutes where there is neither or it is zero.
pub proof fn law_times_are_read(sections: Map<Seq<char>, Map<Seq<char>, Seq<char>>>, n: nat)
    requires
        sections.dom().contains("llm"@),
        0 < n <= u64::MAX,
    ensures
        ({
            let kv = sections["llm"@];
            let c = config::llm_of(sections);
            &&& kv.dom().contains("timeout_secs"@) && kv["timeout_secs"@] == text::dec(n)
                ==> c.timeout_secs == n
            &&& !kv.dom().contains("timeout_secs"@) && kv.dom().contains("timeout"@)
                && kv["timeout"@] == text::dec(n) ==> c.timeout_secs == n
            &&& !kv.dom().contains("timeout_secs"@) && !kv.dom().contains("timeout"@)
                ==> c.timeout_secs == 120
        }),
{
    text_laws::law_numbers_are_read(n, u64::MAX as nat, Seq::empty());
}

/// The variables of a call are the settings that have a value and are not held
/// from outside.
pub proof fn law_held_variables_stay(c: GLlm, held: Seq<Seq<char>>, k: Seq<char>, v: Seq<char>)
    ensures
        config::variables(c, held).contains((k, v)) ==> v.len() > 0 && !held.contains(k),
        v.len() > 0 && !held.contains(k) ==> (config::variables(c, held).contains((k, v)) <==> (k
            == "OPENAI_BASE_URL"@ && v == c.base_url) || (k == "OPENAI_API_KEY"@ && v == c.api_key)
            || (k == "OPENAI_MODEL"@ && v == c.model) || (k == "OPENAI_TIMEOUT_SECS"@
            && c.timeout_secs > 0 && v == text::dec(c.timeout_secs as nat))),
{
    let t = if c.timeout_secs > 0 {
        text::dec(c.timeout_secs as nat)
    } else {
        Seq::empty()
    };
    let a = config::variable(held, "OPENAI_BASE_URL"@, c.base_url);
    let b = config::variable(held, "OPENAI_API_KEY"@, c.api_key);
    let d = config::variable(held, "OPENAI_MODEL"@, c.model);
    let e = config::variable(held, "OPENAI_TIMEOUT_SECS"@, t);
    let x = (k, v);
    lemma_variable(held, "OPENAI_BASE_URL"@, c.base_url, x);
    lemma_variable(held, "OPENAI_API_KEY"@, c.api_key, x);
    lemma_variable(held, "OPENAI_MODEL"@, c.model, x);
    lemma_variable(held, "OPENAI_TIMEOUT_SECS"@, t, x);
    vstd::seq_lib::lemma_seq_concat_contains_all_elements(a, b, x);
    vstd::seq_lib::lemma_seq_concat_contains_all_elements(a + b, d, x);
    vstd::seq_lib::lemma_seq_concat_contains_all_elements(a + b + d, e, x);
}

proof fn lemma_variable(
    held: Seq<Seq<char>>,
    key: Seq<char>,
    val: Seq<char>,
    x: (Seq<char>, Seq<char>),
)
    ensures
        config::variable(held, key, val).contains(x) <==> x == (key, val) && val.len() > 0
            && !held.contains(key),
{
    let r = config::variable(held, key, val);
    if val.len() > 0 && !held.contains(key) {
        assert(r[0] == (key, val));
    }
}

// ── Agents and tiers ──

/// Every section of an agent is an agent, with what it says; there is no other.
pub proof fn law_agents_are_sections(
    sections: Map<Seq<char>, Map<Seq<char>, Seq<char>>>,
    n: Seq<char>,
)
    ensures
        config::agents_of(sections).dom().contains(n) <==> n.len() > 0 && sections.dom().contains(
            "agents."@ + n,
        ),
        config::agents_of(sections).dom().contains(n) ==> ({
            let kv = sections["agents."@ + n];
            let a = config::agents_of(sections)[n];
            &&& a.model == (if kv.dom().contains("model"@) {
                kv["model"@]
            } else {
                Seq::empty()
            })
            &&& kv.dom().contains("system"@) ==> a.system == text::replace_spec(
                kv["system"@],
                "\\n"@,
                "\n"@,
            )
            &&& kv.dom().contains("schema"@) ==> a.schema == text::replace_spec(
                kv["schema"@],
                "\\n"@,
                "\n"@,
            )
            &&& kv.dom().contains("guide"@) ==> a.guide == text::replace_spec(
                kv["guide"@],
                "\\n"@,
                "\n"@,
            )
        }),
{
}

/// Every section of a tier that has a model is a tier, with what it says; there is
/// no other.
pub proof fn law_tiers_have_models(
    sections: Map<Seq<char>, Map<Seq<char>, Seq<char>>>,
    n: Seq<char>,
    m: nat,
)
    requires
        m <= u64::MAX,
    ensures
        config::tiers_of(sections).dom().contains(n) <==> n.len() > 0 && sections.dom().contains(
            "models."@ + n,
        ) && given(sections["models."@ + n], "model"@),
        config::tiers_of(sections).dom().contains(n) ==> ({
            let kv = sections["models."@ + n];
            let t = config::tiers_of(sections)[n];
            &&& t.model == kv["model"@]
            &&& kv.dom().contains("base_url"@) ==> t.base_url == kv["base_url"@]
            &&& kv.dom().contains("api_key"@) ==> t.api_key == kv["api_key"@]
            &&& kv.dom().contains("timeout_secs"@) && kv["timeout_secs"@] == text::dec(m)
                ==> t.timeout_secs == m
            &&& kv.dom().contains("max_tokens"@) && kv["max_tokens"@] == text::dec(m)
                ==> t.max_tokens == m
        }),
{
    text_laws::law_numbers_are_read(m, u64::MAX as nat, Seq::empty());
}

/// The entries of a list stand between its commas, without the white space around
/// them, and empty ones do not count.
pub proof fn law_lists_stand_between_commas(s: Seq<char>)
    ensures
        config::comma_list(s) == text::split_char_spec(s, ',').map_values(
            |p: Seq<char>| text::trimmed(p),
        ).filter(|p: Seq<char>| p.len() > 0),
{
    let parts = text::split_char_spec(s, ',');
    lemma_full_pieces(parts, parts.len() as int);
    assert(parts.take(parts.len() as int) =~= parts);
}

proof fn lemma_full_pieces(parts: Seq<Seq<char>>, n: int)
    requires
        0 <= n <= parts.len(),
    ensures
        config::full_pieces(parts, n) == parts.take(n).map_values(
            |p: Seq<char>| text::trimmed(p),
        ).filter(|p: Seq<char>| p.len() > 0),
    decreases n,
{
    let trim = |p: Seq<char>| text::trimmed(p);
    let full = |p: Seq<char>| p.len() > 0;
    if n > 0 {
        lemma_full_pieces(parts, n - 1);
        let t = parts.take(n - 1).map_values(trim);
        assert(parts.take(n).map_values(trim) =~= t.push(text::trimmed(parts[n - 1])));
        t.lemma_filter_push(text::trimmed(parts[n - 1]), full);
    } else {
        reveal(Seq::filter);
        assert(parts.take(0).map_values(trim) =~= Seq::empty());
    }
}

// ── Ladders ──

/// A call is the more demanding the more fields it has to fill and the longer its
/// texts are: three fields, six fields, a prompt of more than 1200 characters, one
/// of more than 4000 and a system text of more than 400 each count one.
pub proof fn law_demands_add_up(p: int, s: int, f: int)
    ensures
        config::complexity(p, s, f) == (if f >= 3 {
            1int
        } else {
            0
        }) + (if f >= 6 {
            1int
        } else {
            0
        }) + (if p >= 1201 {
            1int
        } else {
            0
        }) + (if p >= 4001 {
            1int
        } else {
            0
        }) + (if s >= 401 {
            1int
        } else {
            0
        }),
{
}

/// A call starts on the first rung up to a demand of one, on the second up to
/// three, and on the third above, or on the last where the ladder is shorter.
pub proof fn law_demands_pick_rungs(score: int, n: int)
    requires
        n >= 1,
    ensures
        0 <= config::tier_index(score, n) < n,
        score <= 1 ==> config::tier_index(score, n) == 0,
        2 <= score <= 3 && n >= 2 ==> config::tier_index(score, n) == 1,
        score >= 4 && n >= 3 ==> config::tier_index(score, n) == 2,
        score >= 4 && n == 2 ==> config::tier_index(score, n) == 1,
{
}

proof fn lemma_undefined(ladder: Seq<Seq<char>>, known: Set<Seq<char>>, i: int)
    requires
        0 <= i <= ladder.len(),
    ensures
        config::undefined_from(ladder, known, i) is None <==> forall|j: int|
            i <= j < ladder.len() ==> known.contains(#[trigger] ladder[j]),
    decreases ladder.len() - i,
{
    if i < ladder.len() && known.contains(ladder[i]) {
        lemma_undefined(ladder, known, i + 1);
    }
}

proof fn lemma_rung(ladder: Seq<Seq<char>>, want: Seq<char>, i: int)
    requires
        0 <= i <= ladder.len(),
    ensures
        match config::rung_from(ladder, want, i) {
            Some(k) => i <= k < ladder.len() && ladder[k] == want && forall|j: int|
                i <= j < k ==> #[trigger] ladder[j] != want,
            None => forall|j: int| i <= j < ladder.len() ==> #[trigger] ladder[j] != want,
        },
    decreases ladder.len() - i,
{
    if i < ladder.len() && ladder[i] != want {
        lemma_rung(ladder, want, i + 1);
    }
}

/// A call can start exactly where every rung of its ladder is a known tier and the
/// tier that it asks for, if any, is one of them; it starts at the one it asks
/// for.
pub proof fn law_calls_start_on_their_ladder(
    ladder: Seq<Seq<char>>,
    known: Set<Seq<char>>,
    score: int,
    asked: Option<Seq<char>>,
)
    ensures
        config::tier_start(ladder, known, score, asked) is Ok <==> (forall|j: int|
            0 <= j < ladder.len() ==> known.contains(#[trigger] ladder[j])) && (ladder.len() > 0
            && asked is Some ==> ladder.contains(asked->0)),
        config::tier_start(ladder, known, score, asked) matches Ok(i) ==> (ladder.len() == 0 ==> i
            == 0) && (ladder.len() > 0 ==> 0 <= i < ladder.len()) && (ladder.len() > 0 && asked
            is Some ==> ladder[i] == asked->0) && (ladder.len() > 0 && asked is None ==> i
            == config::tier_index(score, ladder.len() as int)),
{
    lemma_undefined(ladder, known, 0);
    match asked {
        Some(want) => {
            lemma_rung(ladder, want, 0);
            match config::rung_from(ladder, want, 0) {
                Some(k) => {
                    assert(ladder.contains(want));
                },
                None => {},
            }
        },
        None => {},
    }
}

// ── Where to look ──

/// The file that is asked for comes first, the working directory next, and the
/// home directory last, which is the profile where there is no home.
pub proof fn law_places_come_in_order(
    asked: Option<Seq<char>>,
    home: Option<Seq<char>>,
    profile: Option<Seq<char>>,
    base: Seq<char>,
)
    requires
        home == Some(base) || (home is None && profile == Some(base)),
    ensures
        ({
            let ps = config::places(asked, home, profile);
            let named = asked is Some && text::trimmed(asked->0).len() > 0;
            let k: int = if named {
                1
            } else {
                0
            };
            &&& named ==> ps[0] == seq![text::trimmed(asked->0)]
            &&& ps[k] == seq!["config.toml"@]
            &&& ps[k + 1] == seq!["ductile.toml"@]
            &&& base.len() == 0 ==> ps.len() == k + 2
            &&& base.len() > 0 ==> ps.len() == k + 4 && ps[k + 2] == seq![
                base,
                ".config"@,
                "ductile"@,
                "config.toml"@,
            ] && ps[k + 3] == seq![base, ".local"@, "share"@, "ductile"@, "config.toml"@]
        }),
{
}

} // verus!

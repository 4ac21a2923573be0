//! Negotiation: a model says what it lacks, and the engine adds what it has.

use crate::ast;
use crate::ast::{GValue, Value};
use crate::dslresult;
use crate::json;
use crate::order::TextMap;
use crate::script_card::{Concurrency, GCard, ScriptCard};
use crate::text;
use vstd::prelude::*;

verus! {

/// Something that a model lacks, and what for.
#[derive(Debug, PartialEq)]
pub struct MissingReq {
    pub ref_str: String,
    pub why: String,
}

/// Something that a model lacks, as values.
pub struct GMissing {
    pub ref_str: Seq<char>,
    pub why: Seq<char>,
}

/// A round of a negotiation in short.
#[derive(Debug)]
pub struct RoundSummary {
    pub round: u32,
    pub prompt_len: usize,
    pub missing: Vec<MissingReq>,
    pub resolved: Vec<String>,
    pub unavailable: Vec<String>,
}

impl MissingReq {
    pub open spec fn view(&self) -> GMissing {
        GMissing { ref_str: self.ref_str@, why: self.why@ }
    }
}

/// What is lacking, as values.
pub open spec fn missing_views(v: Seq<MissingReq>) -> Seq<GMissing> {
    v.map_values(|m: MissingReq| m@)
}

/// What a model is told of the negotiation.
pub open spec fn note() -> Seq<char> {
    "\n\n# 上下文协商协议\n如果你判断当前信息不足以产出高质量结果，可以在输出的 JSON 对象中只输出：\n{\"enough\": false, \"missing\": [{\"ref\": \"<引用>\", \"why\": \"<一句话用途>\"}]}\n可用的引用形态：\n- @proc.field —— 上游节点的结构化字段（如 @req.constraints）\n- @proc —— 上游节点的完整输出文本\n- topic —— 本次任务的主题输入全文\n- script:<name> —— 已注册脚本的契约卡（参数/输出/不变量）\n规则：enough=false 时不得输出业务字段；每条 missing 必须带 ref 和 why；\n信息足够时照常输出全部契约字段（可省略 enough）。最多协商 3 轮，请优先声明最关键的缺口。"@
}

/// What a model is told of the negotiation.
pub fn protocol_note() -> (r: String)
    ensures
        r@ == note(),
{
    "\n\n# 上下文协商协议\n如果你判断当前信息不足以产出高质量结果，可以在输出的 JSON 对象中只输出：\n{\"enough\": false, \"missing\": [{\"ref\": \"<引用>\", \"why\": \"<一句话用途>\"}]}\n可用的引用形态：\n- @proc.field —— 上游节点的结构化字段（如 @req.constraints）\n- @proc —— 上游节点的完整输出文本\n- topic —— 本次任务的主题输入全文\n- script:<name> —— 已注册脚本的契约卡（参数/输出/不变量）\n规则：enough=false 时不得输出业务字段；每条 missing 必须带 ref 和 why；\n信息足够时照常输出全部契约字段（可省略 enough）。最多协商 3 轮，请优先声明最关键的缺口。".to_owned()
}

// ── What is lacking ──

/// The text of a key, or nothing.
pub open spec fn text_or_empty(obj: Seq<char>, key: Seq<char>) -> Seq<char> {
    match json::text_field(obj, key) {
        Some(p) => p.0,
        None => Seq::empty(),
    }
}

/// What an object declares to be lacking, if it names it.
pub open spec fn declared_one(obj: Seq<char>) -> Seq<GMissing> {
    if text_or_empty(obj, "ref"@).len() > 0 {
        seq![(GMissing { ref_str: text_or_empty(obj, "ref"@), why: text_or_empty(obj, "why"@) })]
    } else {
        Seq::empty()
    }
}

/// What the objects from the `i`-th character on declare to be lacking.
pub open spec fn declared_from(s: Seq<char>, i: int) -> Seq<GMissing>
    decreases s.len() - i,
{
    match text::find_char_from(s, '{', i) {
        Some(a) if i <= a < s.len() => match text::find_char_from(s, '}', a) {
            Some(b) if a < b < s.len() => declared_one(s.subrange(a, b + 1)) + declared_from(s, b),
            _ => Seq::empty(),
        },
        _ => Seq::empty(),
    }
}

/// What a list declares to be lacking; a text without a list declares nothing.
pub open spec fn declared(raw: Seq<char>) -> Seq<GMissing> {
    match (text::find_char_spec(raw, '['), text::rfind_char_spec(raw, ']')) {
        (Some(a), Some(b)) => if b <= a {
            Seq::empty()
        } else {
            declared_from(raw.subrange(a, b + 1), 0)
        },
        _ => Seq::empty(),
    }
}

/// What a model lacks, given its words for whether it has enough and for what is
/// missing: a negotiation only where it does not have enough and says what is
/// missing.
pub open spec fn asked(enough: Seq<char>, raw: Seq<char>) -> Option<Seq<GMissing>> {
    if !(enough == "false"@ || enough == "0"@) || text::blank(raw) {
        None
    } else {
        Some(declared(raw))
    }
}

/// The value of a field, or nothing.
pub open spec fn field_or_empty(field: Seq<char>, s: Seq<char>) -> Seq<char> {
    match dslresult::field_of(field, s) {
        Some(v) => v,
        None => Seq::empty(),
    }
}

/// What is lacking, as a value.
pub open spec fn asked_view(r: Option<Vec<MissingReq>>) -> Option<Seq<GMissing>> {
    match r {
        Some(v) => Some(missing_views(v@)),
        None => None,
    }
}

/// The text of a key, or nothing.
fn get_text(obj: &str, key: &str) -> (r: String)
    ensures
        r@ == text_or_empty(obj@, key@),
{
    match json::read_text_field(obj, key) {
        Some((t, _)) => t,
        None => {
            let e = String::new();
            assert(e@ =~= Seq::<char>::empty());
            e
        },
    }
}

/// The value of a field, or nothing.
fn get_field(field: &str, s: &str) -> (r: String)
    ensures
        r@ == field_or_empty(field@, s@),
{
    match dslresult::extract_field(field, s) {
        Some(v) => v,
        None => {
            let e = String::new();
            assert(e@ =~= Seq::<char>::empty());
            e
        },
    }
}

/// What a list declares to be lacking; a text without a list declares nothing.
fn parse_missing_json(raw: &str) -> (r: Vec<MissingReq>)
    ensures
        missing_views(r@) == declared(raw@),
{
    let mut out: Vec<MissingReq> = Vec::new();
    assert(missing_views(out@) =~= Seq::<GMissing>::empty());
    let a = match text::find_char(raw, '[') {
        Some(a) => a,
        None => {
            return out;
        },
    };
    let b = match text::rfind_char(raw, ']') {
        Some(b) => b,
        None => {
            return out;
        },
    };
    if b <= a {
        return out;
    }
    proof {
        text::lemma_rfind_char(raw@, ']', raw@.len() as int);
    }
    let all = text::chars_of(raw);
    let len: usize = all.len();
    assert(b < len);
    let list = text::string_of_range(all.as_slice(), a, b + 1);
    let chars = text::chars_of(list.as_str());
    let n: usize = chars.len();
    let mut i: usize = 0;
    let mut more = true;
    assert(missing_views(out@) + declared_from(list@, 0) =~= declared(raw@));
    while more
        invariant
            i <= n,
            n == chars@.len(),
            chars@ == list@,
            more ==> missing_views(out@) + declared_from(list@, i as int) == declared(raw@),
            !more ==> missing_views(out@) == declared(raw@),
        decreases n - i + (if more {
            1int
        } else {
            0int
        }),
    {
        proof {
            text::lemma_find_char_from(list@, '{', i as int);
            assert(missing_views(out@) + Seq::<GMissing>::empty() =~= missing_views(out@));
        }
        match text::find_char_in(chars.as_slice(), '{', i) {
            Some(s) => {
                proof {
                    text::lemma_find_char_from(list@, '}', s as int);
                }
                match text::find_char_in(chars.as_slice(), '}', s) {
                    Some(e) => {
                        let obj = text::string_of_range(chars.as_slice(), s, e + 1);
                        let ref_str = get_text(obj.as_str(), "ref");
                        let why = get_text(obj.as_str(), "why");
                        let ghost before = missing_views(out@);
                        if !ref_str.as_str().is_empty() {
                            let m = MissingReq { ref_str, why };
                            let ghost mv = m@;
                            out.push(m);
                            assert(missing_views(out@) =~= before + seq![mv]);
                        } else {
                            assert(missing_views(out@) =~= before + Seq::<GMissing>::empty());
                        }
                        assert(missing_views(out@) == before + declared_one(obj@));
                        assert(before + declared_from(list@, i as int) =~= missing_views(out@)
                            + declared_from(list@, e as int));
                        i = e;
                    },
                    None => {
                        more = false;
                    },
                }
            },
            None => {
                more = false;
            },
        }
    }
    out
}

/// What a model lacks, given its words for whether it has enough, in small
/// letters, and for what is missing.
pub fn missing_of(enough: &str, raw: &str) -> (r: Option<Vec<MissingReq>>)
    ensures
        asked_view(r) == asked(enough@, raw@),
{
    if !(text::same(enough, "false") || text::same(enough, "0")) {
        return None;
    }
    if text::is_blank(raw) {
        return None;
    }
    Some(parse_missing_json(raw))
}

/// What a model lacks, as its output says: nothing where the output is a result.
pub fn parse_missing(encoded: &str) -> (r: Option<Vec<MissingReq>>)
    ensures
        asked_view(r) == asked(
            text::lower(text::trimmed(field_or_empty("enough"@, encoded@))),
            field_or_empty("missing"@, encoded@),
        ),
{
    let enough = get_field("enough", encoded);
    let word = text::lowercase(text::trim(enough.as_str()).as_str());
    let raw = get_field("missing", encoded);
    missing_of(word.as_str(), raw.as_str())
}

// ── What is added ──

/// The name of a degree of concurrency.
pub open spec fn concurrency_name(c: Concurrency) -> Seq<char> {
    match c {
        Concurrency::Safe => "Safe"@,
        Concurrency::Exclusive => "Exclusive"@,
        Concurrency::Serial => "Serial"@,
    }
}

/// The word for a truth value.
pub open spec fn truth(b: bool) -> Seq<char> {
    if b {
        "true"@
    } else {
        "false"@
    }
}

/// A card as an addition to a prompt.
pub open spec fn card_text(name: Seq<char>, c: GCard) -> Seq<char> {
    "# script:"@ + name + " 契约卡\nname="@ + c.name + "\ndesc="@ + c.desc + "\nparams="@ + c.params
        + "\noutput="@ + c.output + "\npure="@ + truth(c.pure) + " idempotent="@ + truth(
        c.idempotent,
    ) + " concurrency="@ + concurrency_name(c.concurrency)
}

/// The script that a reference names.
pub open spec fn script_named(ref_str: Seq<char>) -> Option<Seq<char>> {
    let s = text::trimmed(ref_str);
    if s == "topic"@ {
        None
    } else {
        text::after_prefix(s, "script:"@)
    }
}

/// What a reference stands for, or why it stands for nothing.
pub open spec fn resolved(
    ref_str: Seq<char>,
    topic: Seq<char>,
    results: Map<Seq<char>, GValue>,
    card: Option<GCard>,
) -> Result<Seq<char>, Seq<char>> {
    let s = text::trimmed(ref_str);
    if s == "topic"@ {
        Ok(topic)
    } else {
        match text::after_prefix(s, "script:"@) {
            Some(name) => match card {
                Some(c) => Ok(card_text(name, c)),
                None => Err("script:"@ + name + " 未注册"@),
            },
            None => match text::after_prefix(s, "@"@) {
                Some(rest) => match text::split_once_spec(rest, '.') {
                    Some((proc, field)) => if !results.dom().contains(proc) {
                        Err("@"@ + proc + " 不存在"@)
                    } else {
                        match dslresult::field_of(field, ast::value_text(results[proc])) {
                            None => Err("@"@ + proc + "."@ + field + " 字段不存在"@),
                            Some(v) => Ok(text::cut_spec(v, 2000)),
                        }
                    },
                    None => if !results.dom().contains(rest) {
                        Err("@"@ + rest + " 不存在"@)
                    } else {
                        Ok(ast::value_text(results[rest]))
                    },
                },
                None => Err(
                    "不可解析的引用形态 '"@ + s
                        + "'（支持 @proc.field / @proc / topic / script:name）"@,
                ),
            },
        }
    }
}

/// The script that a reference names, whose card is to be looked up.
pub fn asked_script(ref_str: &str) -> (r: Option<String>)
    ensures
        text::opt_view(r) == script_named(ref_str@),
{
    let s = text::trim(ref_str);
    if text::same(s.as_str(), "topic") {
        None
    } else {
        text::strip_prefix(s.as_str(), "script:")
    }
}

/// A card as an addition to a prompt.
fn describe(name: &str, card: &ScriptCard) -> (r: String)
    ensures
        r@ == card_text(name@, card@),
{
    let mut s = "# script:".to_owned();
    s.append(name);
    s.append(" 契约卡\nname=");
    s.append(card.name.as_str());
    s.append("\ndesc=");
    s.append(card.desc.as_str());
    s.append("\nparams=");
    s.append(card.params.as_str());
    s.append("\noutput=");
    s.append(card.output.as_str());
    s.append("\npure=");
    s.append(if card.pure {
        "true"
    } else {
        "false"
    });
    s.append(" idempotent=");
    s.append(if card.idempotent {
        "true"
    } else {
        "false"
    });
    s.append(" concurrency=");
    s.append(
        match card.concurrency {
            Concurrency::Safe => "Safe",
            Concurrency::Exclusive => "Exclusive",
            Concurrency::Serial => "Serial",
        },
    );
    s
}

/// What a reference stands for, or why it stands for nothing: the topic, the
/// card of a script, the output of a proc or the first part of one of its
/// fields.
pub fn resolve_ref(
    ref_str: &str,
    topic: &str,
    results: &TextMap<Value>,
    card: &Option<ScriptCard>,
) -> (r: Result<String, String>)
    requires
        results.wf(),
    ensures
        ({
            let want = resolved(
                ref_str@,
                topic@,
                ast::result_views(*results),
                match *card {
                    Some(c) => Some(c@),
                    None => None,
                },
            );
            match r {
                Ok(t) => want == Ok::<Seq<char>, Seq<char>>(t@),
                Err(e) => want == Err::<Seq<char>, Seq<char>>(e@),
            }
        }),
{
    let s = text::trim(ref_str);
    if text::same(s.as_str(), "topic") {
        return Ok(topic.to_owned());
    }
    match text::strip_prefix(s.as_str(), "script:") {
        Some(name) => {
            return match card {
                Some(c) => Ok(describe(name.as_str(), c)),
                None => {
                    let mut m = "script:".to_owned();
                    m.append(name.as_str());
                    m.append(" 未注册");
                    Err(m)
                },
            };
        },
        None => {},
    }
    match text::strip_prefix(s.as_str(), "@") {
        Some(rest) => match text::split_once(rest.as_str(), '.') {
            Some((proc, field)) => match results.get(proc.as_str()) {
                None => {
                    let mut m = "@".to_owned();
                    m.append(proc.as_str());
                    m.append(" 不存在");
                    Err(m)
                },
                Some(v) => match dslresult::extract_field(field.as_str(), v.as_text()) {
                    None => {
                        let mut m = "@".to_owned();
                        m.append(proc.as_str());
                        m.append(".");
                        m.append(field.as_str());
                        m.append(" 字段不存在");
                        Err(m)
                    },
                    Some(t) => Ok(text::cut(t.as_str(), 2000)),
                },
            },
            None => match results.get(rest.as_str()) {
                None => {
                    let mut m = "@".to_owned();
                    m.append(rest.as_str());
                    m.append(" 不存在");
                    Err(m)
                },
                Some(v) => Ok(v.as_text().to_owned()),
            },
        },
        None => {
            let mut m = "不可解析的引用形态 '".to_owned();
            m.append(s.as_str());
            m.append("'（支持 @proc.field / @proc / topic / script:name）");
            Err(m)
        },
    }
}

/// The mark of an addition.
pub open spec fn mark(ref_str: Seq<char>) -> Seq<char> {
    "## 补充 ["@ + text::trimmed(ref_str) + "]"@
}

/// Whether a prompt has been given this before.
pub fn already_provided(prompt: &str, ref_str: &str) -> (r: bool)
    ensures
        r == text::has(prompt@, mark(ref_str@)),
{
    let mut m = "## 补充 [".to_owned();
    m.append(text::trim(ref_str).as_str());
    m.append("]");
    text::contains(prompt, m.as_str())
}

/// The first `n` additions.
pub open spec fn additions(items: Seq<(Seq<char>, Seq<char>)>, n: int) -> Seq<char>
    decreases n,
{
    if n <= 0 {
        Seq::empty()
    } else {
        additions(items, n - 1) + mark(items[n - 1].0) + "\n"@ + items[n - 1].1 + "\n\n"@
    }
}

/// What a round adds to a prompt.
pub open spec fn block(round: int, items: Seq<(Seq<char>, Seq<char>)>) -> Seq<char> {
    "\n\n# 补充信息（协商第 "@ + text::dec(round as nat) + " 轮）\n"@ + additions(
        items,
        items.len() as int,
    )
}

/// What a round adds to a prompt.
pub fn supplement_block(round: u32, items: &Vec<(String, String)>) -> (r: String)
    ensures
        r@ == block(round as int, dslresult::field_views(items@)),
{
    let ghost iv = dslresult::field_views(items@);
    let mut out = "\n\n# 补充信息（协商第 ".to_owned();
    out.append(text::decimal(round as u128).as_str());
    out.append(" 轮）\n");
    let ghost head = out@;
    let mut i: usize = 0;
    assert(head + additions(iv, 0) =~= head);
    while i < items.len()
        invariant
            i <= items@.len(),
            iv == dslresult::field_views(items@),
            out@ == head + additions(iv, i as int),
        decreases items@.len() - i,
    {
        assert(iv[i as int] == (items@[i as int].0@, items@[i as int].1@));
        let mut m = "## 补充 [".to_owned();
        m.append(text::trim(items[i].0.as_str()).as_str());
        m.append("]");
        let ghost before = out@;
        out.append(m.as_str());
        out.append("\n");
        out.append(items[i].1.as_str());
        out.append("\n\n");
        assert(out@ =~= head + additions(iv, i + 1));
        i += 1;
    }
    out
}

/// What stands in a part of a text stands in the text.
proof fn lemma_has_around(a: Seq<char>, s: Seq<char>, b: Seq<char>, p: Seq<char>)
    requires
        text::has(s, p),
    ensures
        text::has(a + s + b, p),
{
    let i = choose|i: int| text::occurs_at(s, p, i);
    let t = a + s + b;
    assert(t.subrange(a.len() + i, a.len() + i + p.len()) =~= s.subrange(i, i + p.len()));
    assert(text::occurs_at(t, p, a.len() + i));
}

proof fn lemma_marked(items: Seq<(Seq<char>, Seq<char>)>, n: int, k: int)
    requires
        0 <= k < n <= items.len(),
    ensures
        text::has(additions(items, n), mark(items[k].0)),
    decreases n,
{
    let m = mark(items[k].0);
    let e = Seq::<char>::empty();
    let tail = "\n"@ + items[n - 1].1 + "\n\n"@;
    if k == n - 1 {
        assert(m.subrange(0, m.len() as int) =~= m);
        assert(text::occurs_at(m, m, 0));
        lemma_has_around(additions(items, n - 1), m, tail, m);
        assert(additions(items, n - 1) + m + tail =~= additions(items, n));
    } else {
        lemma_marked(items, n - 1, k);
        let rest = mark(items[n - 1].0) + tail;
        lemma_has_around(e, additions(items, n - 1), rest, m);
        assert(e + additions(items, n - 1) + rest =~= additions(items, n));
    }
}

/// What a round adds counts as provided in the longer prompt, and whatever was
/// provided before still does: a prompt only grows.
pub proof fn law_provided_stays(
    prompt: Seq<char>,
    round: int,
    items: Seq<(Seq<char>, Seq<char>)>,
    ref_str: Seq<char>,
)
    ensures
        prompt.is_prefix_of(prompt + block(round, items)),
        text::has(prompt, mark(ref_str)) ==> text::has(
            prompt + block(round, items),
            mark(ref_str),
        ),
        forall|k: int|
            0 <= k < items.len() ==> text::has(
                prompt + block(round, items),
                mark((#[trigger] items[k]).0),
            ),
{
    let b = block(round, items);
    let e = Seq::<char>::empty();
    assert((prompt + b).subrange(0, prompt.len() as int) =~= prompt);
    if text::has(prompt, mark(ref_str)) {
        lemma_has_around(e, prompt, b, mark(ref_str));
        assert(e + prompt + b =~= prompt + b);
    }
    let head = "\n\n# 补充信息（协商第 "@ + text::dec(round as nat) + " 轮）\n"@;
    let all = additions(items, items.len() as int);
    assert forall|k: int| 0 <= k < items.len() implies text::has(
        prompt + b,
        mark((#[trigger] items[k]).0),
    ) by {
        lemma_marked(items, items.len() as int, k);
        lemma_has_around(prompt + head, all, e, mark(items[k].0));
        assert(prompt + head + all + e =~= prompt + b);
    }
}

/// A text without square brackets.
pub open spec fn plain(s: Seq<char>) -> bool {
    forall|i: int| 0 <= i < s.len() ==> #[trigger] s[i] != '[' && s[i] != ']'
}

/// Trimming adds no character.
proof fn lemma_trimmed_within(s: Seq<char>, i: int)
    requires
        0 <= i < text::trimmed(s).len(),
    ensures
        exists|j: int| 0 <= j < s.len() && #[trigger] s[j] == text::trimmed(s)[i],
{
    let t = text::trim_start_spec(s);
    text::lemma_trim_start(s);
    text::lemma_trim_end(t);
    assert(text::trimmed(s)[i] == t[i]);
    assert(t[i] == s[s.len() - t.len() + i]);
}

/// Numbers hold no bracket.
proof fn lemma_dec_plain(n: nat)
    ensures
        plain(text::dec(n)),
    decreases n,
{
    if n >= 10 {
        lemma_dec_plain(n / 10);
    }
}

/// Two texts without a bracket, each with one behind it, that stand at the same
/// place are the same.
proof fn lemma_same_up_to_bracket(s: Seq<char>, q: int, a: Seq<char>, b: Seq<char>)
    requires
        0 <= q,
        q + a.len() < s.len(),
        q + b.len() < s.len(),
        s.subrange(q, q + a.len()) == a,
        s.subrange(q, q + b.len()) == b,
        s[q + a.len()] == ']',
        s[q + b.len()] == ']',
        forall|i: int| 0 <= i < a.len() ==> #[trigger] a[i] != ']',
        forall|i: int| 0 <= i < b.len() ==> #[trigger] b[i] != ']',
    ensures
        a == b,
{
    if a.len() < b.len() {
        assert(s.subrange(q, q + b.len())[a.len() as int] == b[a.len() as int]);
    } else if b.len() < a.len() {
        assert(s.subrange(q, q + a.len())[b.len() as int] == a[b.len() as int]);
    }
}

/// Whether the bracket at `q` opens the mark of an addition for `x`.
spec fn opens(s: Seq<char>, q: int, x: Seq<char>) -> bool {
    let t = text::trimmed(x);
    &&& q + 1 + t.len() < s.len()
    &&& s.subrange(q + 1, q + 1 + t.len()) == t
    &&& s[q + 1 + t.len()] == ']'
}

/// A bracket in additions without brackets of their own opens a mark.
proof fn lemma_bracket_opens(items: Seq<(Seq<char>, Seq<char>)>, n: int, q: int)
    requires
        0 <= n <= items.len(),
        forall|k: int|
            0 <= k < items.len() ==> plain((#[trigger] items[k]).0) && plain(items[k].1),
        0 <= q < additions(items, n).len(),
        additions(items, n)[q] == '[',
    ensures
        exists|k: int| 0 <= k < n && opens(additions(items, n), q, (#[trigger] items[k]).0),
    decreases n,
{
    if n > 0 {
        let all = additions(items, n);
        let prev = additions(items, n - 1);
        let x = items[n - 1].0;
        let t = text::trimmed(x);
        let m = mark(x);
        let tail = "\n"@ + items[n - 1].1 + "\n\n"@;
        assert(all =~= prev + m + tail);
        reveal_strlit("## 补充 [");
        reveal_strlit("]");
        reveal_strlit("\n");
        reveal_strlit("\n\n");
        assert(m.len() == 7 + t.len() + 1);
        if q < prev.len() {
            assert(prev[q] == all[q]);
            lemma_bracket_opens(items, n - 1, q);
            let k = choose|k: int| 0 <= k < n - 1 && opens(prev, q, (#[trigger] items[k]).0);
            let u = text::trimmed(items[k].0);
            assert(all.subrange(q + 1, q + 1 + u.len()) =~= prev.subrange(q + 1, q + 1 + u.len()));
            assert(opens(all, q, items[k].0));
        } else if q < prev.len() + m.len() {
            let o = q - prev.len();
            assert(all[q] == m[o]);
            if 7 <= o < 7 + t.len() {
                assert(m[o] == t[o - 7]);
                lemma_trimmed_within(x, o - 7);
                let j = choose|j: int| 0 <= j < x.len() && #[trigger] x[j] == t[o - 7];
                assert(plain(items[n - 1].0));
                assert(x[j] != '[');
            } else if o == 7 + t.len() {
                assert(m[o] == ']');
            }
            assert(o == 6);
            assert(all.subrange(q + 1, q + 1 + t.len()) =~= t);
            assert(all[q + 1 + t.len()] == m[7 + t.len() as int]);
            assert(opens(all, q, items[n - 1].0));
        } else {
            let o = q - prev.len() - m.len();
            let c = items[n - 1].1;
            assert(plain(items[n - 1].1));
            assert(all[q] == tail[o]);
            if 1 <= o < 1 + c.len() {
                assert(tail[o] == c[o - 1]);
            }
            assert(false);
        }
    }
}

/// Nothing but what a round adds counts as provided by it: where neither the
/// prompt nor an addition holds a square bracket, a reference without a closing
/// one counts as provided only where the reference of an addition is the same but
/// for white space at its ends.
pub proof fn law_nothing_else_is_provided(
    prompt: Seq<char>,
    round: int,
    items: Seq<(Seq<char>, Seq<char>)>,
    x: Seq<char>,
)
    requires
        plain(prompt),
        forall|k: int|
            0 <= k < items.len() ==> plain((#[trigger] items[k]).0) && plain(items[k].1),
        forall|i: int| 0 <= i < x.len() ==> #[trigger] x[i] != ']',
        text::has(prompt + block(round, items), mark(x)),
    ensures
        exists|k: int|
            0 <= k < items.len() && text::trimmed((#[trigger] items[k]).0) == text::trimmed(x),
{
    let a = "\n\n# 补充信息（协商第 "@;
    let b = " 轮）\n"@;
    let d = text::dec(round as nat);
    let head = a + d + b;
    let all = additions(items, items.len() as int);
    let s = prompt + block(round, items);
    let start = prompt.len() + head.len();
    assert(s =~= prompt + head + all);
    let m = mark(x);
    let t = text::trimmed(x);
    let i = choose|i: int| text::occurs_at(s, m, i);
    reveal_strlit("## 补充 [");
    reveal_strlit("]");
    reveal_strlit("\n\n# 补充信息（协商第 ");
    reveal_strlit(" 轮）\n");
    lemma_dec_plain(round as nat);
    let q = i + 6;
    assert(m[6] == '[');
    assert(s.subrange(i, i + m.len())[6] == s[q]);
    // The bracket is neither in the prompt nor in the head of the block.
    assert(q >= start) by {
        if q < prompt.len() {
            assert(s[q] == prompt[q]);
        } else if q < start {
            let o = q - prompt.len();
            assert(s[q] == head[o]);
            if a.len() <= o < a.len() + d.len() {
                assert(head[o] == d[o - a.len()]);
            }
        }
    }
    let p = q - start;
    assert(all[p] == s[q]);
    lemma_bracket_opens(items, items.len() as int, p);
    let k = choose|k: int| 0 <= k < items.len() && opens(all, p, (#[trigger] items[k]).0);
    let u = text::trimmed(items[k].0);
    assert(all.subrange(p + 1, p + 1 + t.len()) =~= t) by {
        assert forall|j: int| 0 <= j < t.len() implies all[p + 1 + j] == t[j] by {
            assert(s.subrange(i, i + m.len())[7 + j] == s[q + 1 + j]);
            assert(m[7 + j] == t[j]);
            assert(all[p + 1 + j] == s[q + 1 + j]);
        }
    }
    assert(s.subrange(i, i + m.len())[7 + t.len() as int] == s[q + 1 + t.len()]);
    assert(all[p + 1 + t.len()] == ']');
    assert forall|j: int| 0 <= j < t.len() implies #[trigger] t[j] != ']' by {
        lemma_trimmed_within(x, j);
    }
    assert forall|j: int| 0 <= j < u.len() implies #[trigger] u[j] != ']' by {
        lemma_trimmed_within(items[k].0, j);
    }
    lemma_same_up_to_bracket(all, p + 1, t, u);
}

// ── The log ──

/// A text inside a string of the log.
pub open spec fn quoted(s: Seq<char>) -> Seq<char> {
    text::replace_spec(
        text::replace_spec(text::replace_spec(s, "\\"@, "\\\\"@), "\""@, "\\\""@),
        "\n"@,
        "\\n"@,
    )
}

/// What is lacking, in the log.
pub open spec fn missing_json(m: GMissing) -> Seq<char> {
    "{\"ref\":\""@ + quoted(m.ref_str) + "\",\"why\":\""@ + quoted(m.why) + "\"}"@
}

/// A text as a string of the log.
pub open spec fn string_json(s: Seq<char>) -> Seq<char> {
    "\""@ + quoted(s) + "\""@
}

/// A round in the log.
pub open spec fn round_json(r: RoundSummary) -> Seq<char> {
    "{\"round\":"@ + text::dec(r.round as nat) + ",\"prompt_len\":"@ + text::dec(
        r.prompt_len as nat,
    ) + ",\"missing\":["@ + text::join_spec(
        missing_views(r.missing@).map_values(|m: GMissing| missing_json(m)),
        ","@,
    ) + "],\"resolved\":["@ + text::join_spec(
        text::views(r.resolved@).map_values(|s: Seq<char>| string_json(s)),
        ","@,
    ) + "],\"unavailable\":["@ + text::join_spec(
        text::views(r.unavailable@).map_values(|s: Seq<char>| string_json(s)),
        ","@,
    ) + "]}"@
}

/// The log of a negotiation.
pub open spec fn log_json(rounds: Seq<RoundSummary>, final_len: int) -> Seq<char> {
    "{\"rounds\":["@ + text::join_spec(
        rounds.map_values(|r: RoundSummary| round_json(r)),
        ","@,
    ) + "],\"final_prompt_len\":"@ + text::dec(final_len as nat) + "}"@
}

/// A text inside a string of the log.
fn quote(s: &str) -> (r: String)
    ensures
        r@ == quoted(s@),
{
    proof {
        reveal_strlit("\\");
        reveal_strlit("\"");
        reveal_strlit("\n");
    }
    let a = text::replace(s, "\\", "\\\\");
    let b = text::replace(a.as_str(), "\"", "\\\"");
    text::replace(b.as_str(), "\n", "\\n")
}

/// The texts as strings of the log.
fn strings(v: &Vec<String>) -> (r: String)
    ensures
        r@ == text::join_spec(
            text::views(v@).map_values(|s: Seq<char>| string_json(s)),
            ","@,
        ),
{
    let ghost all = text::views(v@).map_values(|s: Seq<char>| string_json(s));
    let mut out: Vec<String> = Vec::new();
    let mut i: usize = 0;
    assert(text::views(out@) =~= all.take(0));
    while i < v.len()
        invariant
            i <= v@.len(),
            all == text::views(v@).map_values(|s: Seq<char>| string_json(s)),
            text::views(out@) == all.take(i as int),
        decreases v@.len() - i,
    {
        let mut s = "\"".to_owned();
        s.append(quote(v[i].as_str()).as_str());
        s.append("\"");
        assert(s@ == all[i as int]);
        let ghost sv = s@;
        let ghost before = out@;
        out.push(s);
        assert(text::views(out@) =~= text::views(before).push(sv));
        assert(all.take(i + 1) =~= all.take(i as int).push(all[i as int]));
        i += 1;
    }
    assert(all.take(all.len() as int) =~= all);
    text::join(out.as_slice(), ",")
}

/// What is lacking, in the log.
fn lacking(v: &Vec<MissingReq>) -> (r: String)
    ensures
        r@ == text::join_spec(
            missing_views(v@).map_values(|m: GMissing| missing_json(m)),
            ","@,
        ),
{
    let ghost all = missing_views(v@).map_values(|m: GMissing| missing_json(m));
    let mut out: Vec<String> = Vec::new();
    let mut i: usize = 0;
    assert(text::views(out@) =~= all.take(0));
    while i < v.len()
        invariant
            i <= v@.len(),
            all == missing_views(v@).map_values(|m: GMissing| missing_json(m)),
            text::views(out@) == all.take(i as int),
        decreases v@.len() - i,
    {
        let mut s = "{\"ref\":\"".to_owned();
        s.append(quote(v[i].ref_str.as_str()).as_str());
        s.append("\",\"why\":\"");
        s.append(quote(v[i].why.as_str()).as_str());
        s.append("\"}");
        assert(s@ == all[i as int]);
        let ghost sv = s@;
        let ghost before = out@;
        out.push(s);
        assert(text::views(out@) =~= text::views(before).push(sv));
        assert(all.take(i + 1) =~= all.take(i as int).push(all[i as int]));
        i += 1;
    }
    assert(all.take(all.len() as int) =~= all);
    text::join(out.as_slice(), ",")
}

/// The log of a negotiation.
pub fn negotiation_log(summaries: &Vec<RoundSummary>, final_prompt_len: usize) -> (r: String)
    ensures
        r@ == log_json(summaries@, final_prompt_len as int),
{
    let ghost all = summaries@.map_values(|r: RoundSummary| round_json(r));
    let mut rounds: Vec<String> = Vec::new();
    let mut i: usize = 0;
    assert(text::views(rounds@) =~= all.take(0));
    while i < summaries.len()
        invariant
            i <= summaries@.len(),
            all == summaries@.map_values(|r: RoundSummary| round_json(r)),
            text::views(rounds@) == all.take(i as int),
        decreases summaries@.len() - i,
    {
        let r: &RoundSummary = &summaries[i];
        let mut s = "{\"round\":".to_owned();
        s.append(text::decimal(r.round as u128).as_str());
        s.append(",\"prompt_len\":");
        s.append(text::decimal(r.prompt_len as u128).as_str());
        s.append(",\"missing\":[");
        s.append(lacking(&r.missing).as_str());
        s.append("],\"resolved\":[");
        s.append(strings(&r.resolved).as_str());
        s.append("],\"unavailable\":[");
        s.append(strings(&r.unavailable).as_str());
        s.append("]}");
        assert(s@ == all[i as int]);
        let ghost sv = s@;
        let ghost before = rounds@;
        rounds.push(s);
        assert(text::views(rounds@) =~= text::views(before).push(sv));
        assert(all.take(i + 1) =~= all.take(i as int).push(all[i as int]));
        i += 1;
    }
    assert(all.take(all.len() as int) =~= all);
    let mut out = "{\"rounds\":[".to_owned();
    out.append(text::join(rounds.as_slice(), ",").as_str());
    out.append("],\"final_prompt_len\":");
    out.append(text::decimal(final_prompt_len as u128).as_str());
    out.append("}");
    out
}

/// The log that waits for the run it belongs to.
#[derive(Debug)]
pub struct PendingLog {
    pub log: Option<String>,
}

impl PendingLog {
    /// Keeps a log for the run that comes next, in place of one that waits.
    pub fn stash_log(&mut self, log: String)
        ensures
            final(self).log == Some(log),
    {
        self.log = Some(log);
    }

    /// Hands out the log that waits, once.
    pub fn take_log(&mut self) -> (r: Option<String>)
        ensures
            r == old(self).log,
            final(self).log is None,
    {
        self.log.take()
    }
}

} // verus!

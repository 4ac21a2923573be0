//! What the header of a script says, what its card holds, and how a call of one is
//! read.

use crate::script;
use crate::script::GHeader;
use crate::script_card;
use crate::script_card::{Concurrency, GCard};
use crate::text;
use crate::text_laws;
use vstd::prelude::*;

verus! {

// ── Languages ──

/// A script is run by the program of its language, whatever white space is around
/// the name, and in no other language.
pub proof fn law_languages_have_a_program(l: Seq<char>)
    ensures
        ({
            let t = text::trimmed(l);
            &&& t == "python"@ || t == "python3"@ ==> script::interpreter(l) == Ok::<
                _,
                Seq<char>,
            >("python3"@)
            &&& t == "sh"@ || t == "bash"@ ==> script::interpreter(l) == Ok::<_, Seq<char>>(
                "bash"@,
            )
            &&& t == "powershell"@ || t == "pwsh"@ ==> script::interpreter(l) == Ok::<
                _,
                Seq<char>,
            >("pwsh"@)
            &&& t == "node"@ || t == "js"@ ==> script::interpreter(l) == Ok::<_, Seq<char>>(
                "node"@,
            )
            &&& t != "python"@ && t != "python3"@ && t != "sh"@ && t != "bash"@ && t
                != "powershell"@ && t != "pwsh"@ && t != "node"@ && t != "js"@
                ==> script::interpreter(l) is Err
        }),
{
    reveal_strlit("python");
    reveal_strlit("python3");
    reveal_strlit("sh");
    reveal_strlit("bash");
    reveal_strlit("powershell");
    reveal_strlit("pwsh");
    reveal_strlit("node");
    reveal_strlit("js");
    assert("python"@.len() == 6 && "python3"@.len() == 7 && "sh"@.len() == 2 && "bash"@.len() == 4
        && "powershell"@.len() == 10 && "pwsh"@.len() == 4 && "node"@.len() == 4 && "js"@.len()
        == 2);
    assert("sh"@[0] == 's' && "js"@[0] == 'j' && "bash"@[0] == 'b' && "pwsh"@[0] == 'p'
        && "node"@[0] == 'n');
}

/// Two equal calls become one only where a script has no effects, may be repeated
/// and may run beside anything.
pub proof fn law_only_harmless_scripts_are_fused(c: GCard)
    ensures
        script::fusible(c) ==> c.pure && c.idempotent && c.concurrency == Concurrency::Safe,
        c.pure && c.idempotent && c.concurrency == Concurrency::Safe ==> script::fusible(c),
{
}

// ── Headers ──

/// A header starts at the comment with its version; another version is refused.
pub proof fn law_headers_start_at_their_version(lines: Seq<Seq<char>>, i: int, h: GHeader)
    requires
        0 <= i < lines.len(),
        text::trimmed(lines[i]).len() > 0,
        text::trimmed(lines[i])[0] == '#',
        text::after_prefix(script::comment_body(text::trimmed(lines[i])), "ductile:"@) is Some,
    ensures
        ({
            let v = text::trimmed(
                text::after_prefix(
                    script::comment_body(text::trimmed(lines[i])),
                    "ductile:"@,
                )->0,
            );
            &&& v == "v1"@ ==> script::header_from(lines, i, h) == script::header_from(
                lines,
                i + 1,
                (GHeader { started: true, entries: h.entries }),
            )
            &&& v != "v1"@ ==> script::header_from(lines, i, h) is Err
        }),
{
}

/// A comment of a header that has started gives an entry where it has a colon; one
/// before the header gives none.
pub proof fn law_comments_give_entries(
    lines: Seq<Seq<char>>,
    i: int,
    h: GHeader,
    k: Seq<char>,
    v: Seq<char>,
)
    requires
        0 <= i < lines.len(),
        text::trimmed(lines[i]).len() > 0,
        text::trimmed(lines[i])[0] == '#',
        script::comment_body(text::trimmed(lines[i])) == k + seq![':'] + v,
        !"ductile:"@.is_prefix_of(k + seq![':'] + v),
        forall|j: int| 0 <= j < k.len() ==> #[trigger] k[j] != ':',
    ensures
        h.started ==> script::header_from(lines, i, h) == script::header_from(
            lines,
            i + 1,
            (GHeader {
                started: true,
                entries: h.entries.push((text::trimmed(k), text::trimmed(v))),
            }),
        ),
        !h.started ==> script::header_from(lines, i, h) == script::header_from(lines, i + 1, h),
{
    text_laws::law_cut_at_the_first(k, ':', v);
    assert(h.entries + seq![(text::trimmed(k), text::trimmed(v))] =~= h.entries.push(
        (text::trimmed(k), text::trimmed(v)),
    ));
}

/// A header ends at the first line that is no comment; empty lines before it are
/// passed over.
pub proof fn law_headers_end_at_the_code(lines: Seq<Seq<char>>, i: int, h: GHeader)
    requires
        0 <= i < lines.len(),
        text::trimmed(lines[i]).len() > 0 ==> text::trimmed(lines[i])[0] != '#',
    ensures
        text::trimmed(lines[i]).len() > 0 || h.started ==> script::header_from(lines, i, h) == Ok::<
            _,
            Seq<char>,
        >(h),
        text::trimmed(lines[i]).len() == 0 && !h.started ==> script::header_from(lines, i, h)
            == script::header_from(lines, i + 1, h),
{
}

/// The signs of a comment and the white space around it come off.
pub proof fn law_comment_signs_come_off(a: Seq<char>, w: Seq<char>)
    requires
        forall|i: int| 0 <= i < a.len() ==> #[trigger] a[i] == '#',
        w.len() > 0,
        !text::is_space(w[0]),
        !text::is_space(w.last()),
        w[0] != '#',
    ensures
        script::comment_body(a + seq![' '] + w) == w,
        script::comment_body(a + w) == w,
{
    reveal_strlit("#");
    let e = Seq::<char>::empty();
    let hash = "#"@;
    assert(hash[0] == '#');
    assert(hash.contains('#'));
    assert forall|i: int| 0 <= i < a.len() implies hash.contains(#[trigger] a[i]) by {
    }
    let s = seq![' '] + w;
    assert(!hash.contains(s[0]));
    lemma_signs(a, s);
    assert(a + s =~= a + seq![' '] + w);
    assert(s + e =~= seq![' '] + w + e);
    text_laws::law_trimming_takes_the_ends(seq![' '], w, e);
    assert(s =~= seq![' '] + w + e);
    assert(!hash.contains(w[0]));
    lemma_signs(a, w);
    text_laws::law_trimming_takes_the_ends(e, w, e);
    assert(e + w + e =~= w);
}

proof fn lemma_signs(a: Seq<char>, s: Seq<char>)
    requires
        forall|i: int| 0 <= i < a.len() ==> "#"@.contains(#[trigger] a[i]),
        s.len() > 0,
        !"#"@.contains(s[0]),
    ensures
        text::front_spec(a + s, "#"@) == s,
    decreases a.len(),
{
    if a.len() > 0 {
        let t = a + s;
        assert(t[0] == a[0]);
        assert(t.skip(1) =~= a.skip(1) + s);
        assert forall|i: int| 0 <= i < a.skip(1).len() implies "#"@.contains(
            #[trigger] a.skip(1)[i],
        ) by {
            assert(a.skip(1)[i] == a[i + 1]);
        }
        lemma_signs(a.skip(1), s);
    } else {
        assert(a + s =~= s);
    }
}

/// The last entry of a key counts, and one without a key or a value does not.
pub proof fn law_the_last_entry_counts(
    entries: Seq<(Seq<char>, Seq<char>)>,
    n: int,
    x: Seq<char>,
)
    requires
        0 <= n <= entries.len(),
    ensures
        script::entry_map(entries, n).dom().contains(x) <==> exists|i: int|
            0 <= i < n && (#[trigger] entries[i]).0 == x && x.len() > 0 && entries[i].1.len() > 0,
        forall|i: int|
            0 <= i < n && (#[trigger] entries[i]).0 == x && x.len() > 0 && entries[i].1.len() > 0
                && (forall|j: int|
                i < j < n && (#[trigger] entries[j]).0 == x ==> entries[j].1.len() == 0)
                ==> script::entry_map(entries, n)[x] == entries[i].1,
    decreases n,
{
    if n > 0 {
        law_the_last_entry_counts(entries, n - 1, x);
        let (k, v) = entries[n - 1];
        assert(entries[n - 1].0 == k);
        assert forall|i: int|
            0 <= i < n && (#[trigger] entries[i]).0 == x && x.len() > 0 && entries[i].1.len() > 0
                && (forall|j: int|
                i < j < n && (#[trigger] entries[j]).0 == x ==> entries[j].1.len()
                    == 0) implies script::entry_map(entries, n)[x] == entries[i].1 by {
            if i < n - 1 {
                if k == x {
                    assert(entries[n - 1].1.len() == 0);
                }
            }
        }
    }
}

// ── Cards ──

proof fn lemma_missing(kv: Map<Seq<char>, Seq<char>>, names: Seq<Seq<char>>, n: int)
    requires
        0 <= n <= names.len(),
    ensures
        script::missing(kv, names, n).len() == 0 <==> forall|i: int|
            0 <= i < n ==> kv.dom().contains(#[trigger] names[i]),
    decreases n,
{
    if n > 0 {
        lemma_missing(kv, names, n - 1);
        assert(names[n - 1] == names[n - 1]);
    }
}

/// Whether a header has all that every header has.
pub open spec fn has_all(kv: Map<Seq<char>, Seq<char>>) -> bool {
    &&& kv.dom().contains("name"@)
    &&& kv.dom().contains("desc"@)
    &&& kv.dom().contains("lang"@)
    &&& kv.dom().contains("output"@)
    &&& kv.dom().contains("pure"@)
    &&& kv.dom().contains("idempotent"@)
    &&& kv.dom().contains("concurrency"@)
    &&& kv.dom().contains("effects"@)
}

/// Whether a header has notes on each of its coordinates, where it has any.
pub open spec fn noted(kv: Map<Seq<char>, Seq<char>>) -> bool {
    kv.dom().contains("mcsm"@) ==> script::coordinates(kv["mcsm"@]) && kv.dom().contains(
        "mcsm_note_f"@,
    ) && kv.dom().contains("mcsm_note_o"@) && kv.dom().contains("mcsm_note_p"@)
        && kv.dom().contains("mcsm_note_t"@)
}

/// Whether a text is one of the two truth values.
pub open spec fn truth(v: Seq<char>) -> bool {
    v == "true"@ || v == "false"@
}

proof fn lemma_keys(kv: Map<Seq<char>, Seq<char>>)
    ensures
        script::missing(kv, script::required_keys(), 8).len() == 0 <==> has_all(kv),
        script::missing(kv, script::note_keys(), 4).len() == 0 <==> kv.dom().contains(
            "mcsm_note_f"@,
        ) && kv.dom().contains("mcsm_note_o"@) && kv.dom().contains("mcsm_note_p"@)
            && kv.dom().contains("mcsm_note_t"@),
{
    let r = script::required_keys();
    let n = script::note_keys();
    lemma_missing(kv, r, 8);
    lemma_missing(kv, n, 4);
    assert(r[0] == "name"@ && r[1] == "desc"@ && r[2] == "lang"@ && r[3] == "output"@ && r[4]
        == "pure"@ && r[5] == "idempotent"@ && r[6] == "concurrency"@ && r[7] == "effects"@);
    assert(n[0] == "mcsm_note_f"@ && n[1] == "mcsm_note_o"@ && n[2] == "mcsm_note_p"@ && n[3]
        == "mcsm_note_t"@);
}

/// A card is made exactly of a header that has started, has all that every header
/// has, in a known language and degree of concurrency, with a name of letters,
/// with truth values where they belong, and with notes on its coordinates.
pub proof fn law_whole_headers_make_cards(
    started: bool,
    kv: Map<Seq<char>, Seq<char>>,
    path: Seq<char>,
)
    ensures
        script::card_of(started, kv, path) is Ok <==> started && has_all(kv) && script::interpreter(
            kv["lang"@],
        ) is Ok && script_card::concurrency_of(kv["concurrency"@]) is Ok && kv["name"@].len() > 0
            && script::name_chars(kv["name"@]) && truth(kv["pure"@]) && truth(kv["idempotent"@])
            && noted(kv),
{
    reveal_strlit("true");
    reveal_strlit("false");
    lemma_keys(kv);
}

/// A card says what its header says, under each name; a run has five minutes and is
/// not tried again unless the header says otherwise.
pub proof fn law_cards_say_what_headers_say(
    kv: Map<Seq<char>, Seq<char>>,
    path: Seq<char>,
    n: nat,
)
    requires
        script::card_of(true, kv, path) is Ok,
        n <= u64::MAX,
        n <= usize::MAX,
    ensures
        ({
            let c = script::card_of(true, kv, path)->Ok_0;
            &&& c.name == kv["name"@] && c.path == path && c.lang == kv["lang"@] && c.desc
                == kv["desc"@] && c.output == kv["output"@] && c.effects == kv["effects"@]
            &&& c.pure <==> kv["pure"@] == "true"@
            &&& c.idempotent <==> kv["idempotent"@] == "true"@
            &&& Ok::<Concurrency, Seq<char>>(c.concurrency) == script_card::concurrency_of(
                kv["concurrency"@],
            )
            &&& kv.dom().contains("params"@) ==> c.params == kv["params"@]
            &&& !kv.dom().contains("params"@) ==> c.params.len() == 0
            &&& !kv.dom().contains("timeout"@) ==> c.timeout_secs == 300
            &&& kv.dom().contains("timeout"@) && kv["timeout"@] == text::dec(n) ==> c.timeout_secs
                == n
            &&& !kv.dom().contains("retries"@) ==> c.retries == 0
            &&& kv.dom().contains("retries"@) && kv["retries"@] == text::dec(n) ==> c.retries == n
            &&& kv.dom().contains("mcsm"@) ==> c.mcsm == kv["mcsm"@] && c.mcsm_note == "F: "@
                + kv["mcsm_note_f"@] + "\nO: "@ + kv["mcsm_note_o"@] + "\nP: "@
                + kv["mcsm_note_p"@] + "\nT: "@ + kv["mcsm_note_t"@]
            &&& !kv.dom().contains("mcsm"@) ==> c.mcsm.len() == 0 && c.mcsm_note.len() == 0
        }),
{
    reveal_strlit("true");
    reveal_strlit("false");
    assert("true"@.len() == 4 && "false"@.len() == 5);
    lemma_keys(kv);
    text_laws::law_numbers_are_read(n, u64::MAX as nat, Seq::empty());
    text_laws::law_numbers_are_read(n, usize::MAX as nat, Seq::empty());
}

/// The four coordinates are digits from one to four, each in the brackets of its
/// letter, and any other text is none.
pub proof fn law_coordinates_are_four_digits(f: char, o: char, p: char, t: char)
    ensures
        script::coordinates(
            seq!['F', '(', f, ')', '-', 'O', '(', o, ')', '-', 'P', '(', p, ')', '-', 'T', '(', t, ')'],
        ) <==> '1' as u32 <= f as u32 <= '4' as u32 && '1' as u32 <= o as u32 <= '4' as u32
            && '1' as u32 <= p as u32 <= '4' as u32 && '1' as u32 <= t as u32 <= '4' as u32,
{
    reveal_strlit("F(");
    reveal_strlit(")-O(");
    reveal_strlit(")-P(");
    reveal_strlit(")-T(");
    let s = seq!['F', '(', f, ')', '-', 'O', '(', o, ')', '-', 'P', '(', p, ')', '-', 'T', '(', t, ')'];
    assert(s.subrange(0, 2) =~= "F("@);
    assert(s.subrange(3, 7) =~= ")-O("@);
    assert(s.subrange(8, 12) =~= ")-P("@);
    assert(s.subrange(13, 17) =~= ")-T("@);
}

// ── Calls ──

proof fn lemma_plain(
    s: Seq<char>,
    i: int,
    k: int,
    tokens: Seq<Seq<char>>,
    cur: Seq<char>,
)
    requires
        0 <= i <= k <= s.len(),
        forall|j: int|
            i <= j < k ==> #[trigger] s[j] != '\'' && s[j] != '"' && s[j] != ',',
    ensures
        script::tokens_from(s, i, tokens, cur, None) == script::tokens_from(
            s,
            k,
            tokens,
            cur + s.subrange(i, k),
            None,
        ),
    decreases k - i,
{
    if i < k {
        assert(s[i] != ',');
        lemma_plain(s, i + 1, k, tokens, cur.push(s[i]));
        assert(cur.push(s[i]) + s.subrange(i + 1, k) =~= cur + s.subrange(i, k));
    } else {
        assert(cur + s.subrange(i, k) =~= cur);
    }
}

proof fn lemma_in_quotes(
    s: Seq<char>,
    i: int,
    k: int,
    tokens: Seq<Seq<char>>,
    cur: Seq<char>,
    q: char,
)
    requires
        0 <= i <= k < s.len(),
        forall|j: int| i <= j < k ==> #[trigger] s[j] != q,
        s[k] == q,
    ensures
        script::tokens_from(s, i, tokens, cur, Some(q)) == script::tokens_from(
            s,
            k + 1,
            tokens,
            cur + s.subrange(i, k),
            None,
        ),
    decreases k - i,
{
    if i < k {
        assert(s[i] != q);
        lemma_in_quotes(s, i + 1, k, tokens, cur.push(s[i]), q);
        assert(cur.push(s[i]) + s.subrange(i + 1, k) =~= cur + s.subrange(i, k));
    } else {
        assert(cur + s.subrange(i, k) =~= cur);
    }
}

/// A text that separates nothing and quotes nothing.
pub open spec fn bare(s: Seq<char>) -> bool {
    forall|j: int| 0 <= j < s.len() ==> #[trigger] s[j] != '\'' && s[j] != '"' && s[j] != ','
}

/// A call with a quoted argument is read back: its name, the name of the argument
/// and its value without the quotes, whatever commas are in it.
pub proof fn law_calls_with_arguments_read_back(
    name: Seq<char>,
    k: Seq<char>,
    v: Seq<char>,
    q: char,
)
    requires
        name.len() > 0,
        script::name_chars(name),
        text::trimmed(name) == name,
        bare(name),
        k.len() > 0,
        bare(k),
        !text::is_space(k[0]),
        !text::is_space(k.last()),
        forall|j: int| 0 <= j < k.len() ==> #[trigger] k[j] != '=',
        q == '\'' || q == '"',
        forall|j: int| 0 <= j < v.len() ==> #[trigger] v[j] != q,
        v.len() > 0 ==> !text::is_space(v[0]) && !text::is_space(v.last()),
    ensures
        script::call_of_inner(name + seq![','] + k + seq!['='] + seq![q] + v + seq![q]) == Ok::<
            _,
            Seq<char>,
        >((name, seq![(k, v)])),
{
    let e = Seq::<char>::empty();
    let no = Seq::<Seq<char>>::empty();
    let s = name + seq![','] + k + seq!['='] + seq![q] + v + seq![q];
    let n = name.len() as int;
    let m = n + 1 + k.len() + 1;
    let z = m + 1 + v.len();
    assert forall|j: int| 0 <= j < n implies #[trigger] s[j] != '\'' && s[j] != '"' && s[j]
        != ',' by {
        assert(s[j] == name[j]);
    }
    lemma_plain(s, 0, n, no, e);
    assert(e + s.subrange(0, n) =~= name);
    assert(s[n] == ',');
    let one = no.push(name);
    assert forall|j: int| n + 1 <= j < m implies #[trigger] s[j] != '\'' && s[j] != '"' && s[j]
        != ',' by {
        if j < m - 1 {
            assert(s[j] == k[j - n - 1]);
        }
    }
    lemma_plain(s, n + 1, m, one, e);
    let ke = k + seq!['='];
    assert(e + s.subrange(n + 1, m) =~= ke);
    assert(s[m] == q);
    assert forall|j: int| m + 1 <= j < z implies #[trigger] s[j] != q by {
        assert(s[j] == v[j - m - 1]);
    }
    assert(s[z] == q);
    lemma_in_quotes(s, m + 1, z, one, ke, q);
    let kv = k + seq!['='] + v;
    assert(ke + s.subrange(m + 1, z) =~= kv);
    let t = script::tokens_from(s, 0, no, e, None);
    if v.len() > 0 {
        assert(kv.last() == v.last());
    }
    assert(kv[0] == k[0]);
    text_laws::law_trimming_takes_the_ends(e, kv, e);
    assert(e + kv + e =~= kv);
    let two = one.push(kv);
    assert(t.tokens =~= two);
    assert(t.quote is None);
    reveal_with_fuel(script::full_tokens, 3);
    assert(two[0] == name && two[1] == kv);
    let full = script::full_tokens(two, 2);
    assert(full =~= seq![name, kv]);
    reveal_with_fuel(script::call_args, 3);
    text_laws::law_cut_at_the_first(k, '=', v);
    text_laws::law_trimming_takes_the_ends(e, k, e);
    assert(e + k + e =~= k);
    text_laws::law_trimming_takes_the_ends(e, v, e);
    assert(e + v + e =~= v);
    assert(full[1] == kv);
    assert(no.push(name) =~= seq![name]);
    assert(Seq::<(Seq<char>, Seq<char>)>::empty().push((k, v)) =~= seq![(k, v)]);
}

/// What a call calls stands between its first bracket and its last.
pub proof fn law_calls_stand_between_brackets(a: Seq<char>, inner: Seq<char>, b: Seq<char>)
    requires
        forall|i: int| 0 <= i < a.len() ==> #[trigger] a[i] != '(',
        forall|i: int| 0 <= i < b.len() ==> #[trigger] b[i] != ')',
    ensures
        script::call_of(a + seq!['('] + inner + seq![')'] + b) == script::call_of_inner(inner),
        script::call_of(a) is Err,
{
    let s = a + seq!['('] + inner + seq![')'] + b;
    let n = a.len() as int;
    assert forall|j: int| 0 <= j < n implies s[j] != '(' by {
        assert(s[j] == a[j]);
    }
    assert(s[n] == '(');
    text::lemma_find_char_is(s, '(', 0, n);
    text_laws::law_the_last_is_found(a + seq!['('] + inner, ')', b);
    assert(s.subrange(n + 1, n + 1 + inner.len()) =~= inner);
    text::lemma_find_char_none(a, '(', 0);
}

} // verus!

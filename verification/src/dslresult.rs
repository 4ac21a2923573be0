//! The protocol for structured results: a script ends its output with a block
//! of fields, and the engine hands them on in front of the raw output.

use crate::order;
use crate::order::TextSet;
use crate::text;
use vstd::prelude::*;

verus! {

// ── Blocks in the output of scripts ──

/// Fields as values.
pub open spec fn field_views(v: Seq<(String, String)>) -> Seq<(Seq<char>, Seq<char>)> {
    v.map_values(|p: (String, String)| (p.0@, p.1@))
}

/// The field of a line, where its name and its value are not empty.
pub open spec fn line_field(line: Seq<char>) -> Option<(Seq<char>, Seq<char>)> {
    match text::split_once_spec(line, '=') {
        Some((k, v)) if text::trimmed(k).len() > 0 && text::trimmed(v).len() > 0 => Some(
            (text::trimmed(k), text::trimmed(v)),
        ),
        _ => None,
    }
}

/// The fields of the lines from the `i`-th on; `inside` tells whether a block
/// is open.
pub open spec fn block_fields(lines: Seq<Seq<char>>, i: int, inside: bool) -> Seq<
    (Seq<char>, Seq<char>),
>
    decreases lines.len() - i,
{
    if i >= lines.len() {
        Seq::empty()
    } else if "##DSL_RESULT"@.is_prefix_of(lines[i]) {
        block_fields(lines, i + 1, true)
    } else if "##DSL_END"@.is_prefix_of(lines[i]) {
        block_fields(lines, i + 1, false)
    } else {
        match line_field(lines[i]) {
            Some(f) if inside => seq![f] + block_fields(lines, i + 1, inside),
            _ => block_fields(lines, i + 1, inside),
        }
    }
}

/// The fields of an output.
pub open spec fn output_fields(stdout: Seq<char>) -> Seq<(Seq<char>, Seq<char>)> {
    block_fields(text::lines_spec(stdout), 0, false)
}

/// The fields in the blocks of an output; nothing where there are none.
pub fn parse_dsl_result_block(stdout: &str) -> (r: Option<Vec<(String, String)>>)
    ensures
        match r {
            Some(v) => v@.len() > 0 && field_views(v@) == output_fields(stdout@),
            None => output_fields(stdout@).len() == 0,
        },
{
    let lines = text::lines(stdout);
    let ghost lv = text::views(lines@);
    let mut out: Vec<(String, String)> = Vec::new();
    let mut inside = false;
    let mut i: usize = 0;
    assert(field_views(out@) + block_fields(lv, 0, false) =~= block_fields(lv, 0, false));
    while i < lines.len()
        invariant
            i <= lines@.len(),
            lv == text::views(lines@),
            lv == text::lines_spec(stdout@),
            output_fields(stdout@) == field_views(out@) + block_fields(lv, i as int, inside),
        decreases lines@.len() - i,
    {
        let line = lines[i].as_str();
        if text::starts_with(line, "##DSL_RESULT") {
            inside = true;
        } else if text::starts_with(line, "##DSL_END") {
            inside = false;
        } else if inside {
            match text::split_once(line, '=') {
                Some((k, v)) => {
                    let key = text::trim(k.as_str());
                    let val = text::trim(v.as_str());
                    if !key.as_str().is_empty() && !val.as_str().is_empty() {
                        let ghost f = (key@, val@);
                        let ghost before = out@;
                        let ghost rest = block_fields(lv, i + 1, inside);
                        out.push((key, val));
                        assert(field_views(out@) =~= field_views(before).push(f));
                        assert(field_views(out@) + rest =~= field_views(before) + (seq![f] + rest));
                    }
                },
                None => {},
            }
        }
        i += 1;
    }
    assert(field_views(out@) =~= output_fields(stdout@));
    if out.len() == 0 {
        None
    } else {
        Some(out)
    }
}

// ── Fields in front of a raw output ──

/// The fields as texts.
pub open spec fn field_texts(kvs: Seq<(Seq<char>, Seq<char>)>) -> Seq<Seq<char>> {
    kvs.map_values(|p: (Seq<char>, Seq<char>)| p.0 + "="@ + p.1)
}

/// The fields in front of the raw output.
pub open spec fn encoded(kvs: Seq<(Seq<char>, Seq<char>)>, raw: Seq<char>) -> Seq<char> {
    "§§FIELDS§§"@ + text::join_spec(field_texts(kvs), "§§"@) + "§§RAW§§"@ + raw
}

/// The value of the first field of that name from the `i`-th piece on; the
/// fields end at the mark of the raw output.
pub open spec fn field_from(parts: Seq<Seq<char>>, field: Seq<char>, i: int) -> Option<Seq<char>>
    decreases parts.len() - i,
{
    if i >= parts.len() || parts[i] == "RAW"@ {
        None
    } else {
        match text::split_once_spec(parts[i], '=') {
            Some((k, v)) if k == field => Some(v),
            _ => field_from(parts, field, i + 1),
        }
    }
}

/// The value of a field of an encoded text.
pub open spec fn field_of(field: Seq<char>, s: Seq<char>) -> Option<Seq<char>> {
    match text::after_prefix(s, "§§FIELDS§§"@) {
        Some(rest) => field_from(text::split_str_spec(rest, "§§"@), field, 0),
        None => None,
    }
}

/// The fields in front of the raw output.
pub fn encode_structured_result(kvs: &Vec<(String, String)>, raw: &str) -> (r: String)
    ensures
        r@ == encoded(field_views(kvs@), raw@),
{
    let ghost all = field_texts(field_views(kvs@));
    let mut fields: Vec<String> = Vec::new();
    let mut i: usize = 0;
    assert(text::views(fields@) =~= all.take(0));
    while i < kvs.len()
        invariant
            i <= kvs@.len(),
            all == field_texts(field_views(kvs@)),
            text::views(fields@) == all.take(i as int),
        decreases kvs@.len() - i,
    {
        let mut f = kvs[i].0.clone();
        f.append("=");
        f.append(kvs[i].1.as_str());
        assert(f@ == all[i as int]);
        let ghost before = fields@;
        fields.push(f);
        assert(text::views(fields@) =~= text::views(before).push(all[i as int]));
        assert(all.take(i + 1) =~= all.take(i as int).push(all[i as int]));
        i += 1;
    }
    assert(all.take(i as int) =~= all);
    let mut s = "§§FIELDS§§".to_owned();
    s.append(text::join(fields.as_slice(), "§§").as_str());
    s.append("§§RAW§§");
    s.append(raw);
    s
}

/// The value of a field of an encoded text; nothing for a text that is not
/// encoded and for a field that is not there.
pub fn extract_field(field: &str, s: &str) -> (r: Option<String>)
    ensures
        text::opt_view(r) == field_of(field@, s@),
{
    match text::strip_prefix(s, "§§FIELDS§§") {
        Some(rest) => {
            proof {
                reveal_strlit("§§");
            }
            let parts = text::split_str(rest.as_str(), "§§");
            let ghost pv = text::views(parts@);
            let mut i: usize = 0;
            while i < parts.len()
                invariant
                    i <= parts@.len(),
                    pv == text::views(parts@),
                    field_of(field@, s@) == field_from(pv, field@, i as int),
                decreases parts@.len() - i,
            {
                if text::same(parts[i].as_str(), "RAW") {
                    return None;
                }
                match text::split_once(parts[i].as_str(), '=') {
                    Some((k, v)) => {
                        if text::same(k.as_str(), field) {
                            return Some(v);
                        }
                    },
                    None => {},
                }
                i += 1;
            }
            None
        },
        None => None,
    }
}

// ── What was encoded is read back ──

/// Whether a text can stand in front of a separator: it does not hold one, nor
/// does it end with half of one.
pub open spec fn clean(p: Seq<char>) -> bool {
    !text::has(p, "§§"@) && (p.len() > 0 ==> p.last() != '§')
}

/// The value of the first field of that name from the `i`-th on.
pub open spec fn lookup(kvs: Seq<(Seq<char>, Seq<char>)>, field: Seq<char>, i: int) -> Option<
    Seq<char>,
>
    decreases kvs.len() - i,
{
    if i >= kvs.len() {
        None
    } else if kvs[i].0 == field {
        Some(kvs[i].1)
    } else {
        lookup(kvs, field, i + 1)
    }
}

/// The first separator behind a clean text is the one that follows it.
proof fn lemma_find_behind(p: Seq<char>, rest: Seq<char>, i: int)
    requires
        clean(p),
        0 <= i <= p.len(),
    ensures
        text::find_from(p + "§§"@ + rest, "§§"@, i) == Some(p.len() as int),
    decreases p.len() - i,
{
    reveal_strlit("§§");
    let sep = "§§"@;
    let s = p + sep + rest;
    if i == p.len() {
        assert(s.subrange(i, i + 2) =~= sep);
    } else {
        if text::occurs_at(s, sep, i) {
            assert(s.subrange(i, i + 2) == sep);
            assert(s[i] == s.subrange(i, i + 2)[0]);
            assert(s[i + 1] == s.subrange(i, i + 2)[1]);
            if i + 1 < p.len() {
                assert(p.subrange(i, i + 2) =~= sep);
                assert(text::occurs_at(p, sep, i));
                assert(text::has(p, sep));
            } else {
                assert(p.last() == s[i]);
            }
        }
        lemma_find_behind(p, rest, i + 1);
    }
}

/// A clean text is the first piece in front of a separator.
pub proof fn lemma_split_clean(p: Seq<char>, rest: Seq<char>)
    requires
        clean(p),
    ensures
        text::split_str_spec(p + "§§"@ + rest, "§§"@) == seq![p] + text::split_str_spec(
            rest,
            "§§"@,
        ),
{
    reveal_strlit("§§");
    let s = p + "§§"@ + rest;
    lemma_find_behind(p, rest, 0);
    assert(s.take(p.len() as int) =~= p);
    assert(s.skip(p.len() as int + 2) =~= rest);
}

/// Joined pieces start with the first one.
pub proof fn lemma_join_first(fs: Seq<Seq<char>>, sep: Seq<char>)
    requires
        fs.len() >= 2,
    ensures
        text::join_spec(fs, sep) == fs[0] + sep + text::join_spec(fs.skip(1), sep),
    decreases fs.len(),
{
    let init = fs.drop_last();
    if fs.len() == 2 {
        assert(text::join_spec(init, sep) == fs[0]);
        assert(fs.skip(1) =~= seq![fs[1]]);
        assert(text::join_spec(fs.skip(1), sep) == fs[1]);
        assert(text::join_spec(fs, sep) =~= fs[0] + sep + fs[1]);
    } else {
        lemma_join_first(init, sep);
        let rest = fs.skip(1);
        assert(rest.drop_last() =~= init.skip(1));
        assert(rest.last() == fs.last());
        assert(text::join_spec(fs, sep) =~= fs[0] + sep + (text::join_spec(init.skip(1), sep) + sep
            + fs.last()));
    }
}

/// Joined clean pieces are split again.
proof fn lemma_split_joined(fs: Seq<Seq<char>>, rest: Seq<char>)
    requires
        fs.len() > 0,
        forall|i: int| 0 <= i < fs.len() ==> clean(#[trigger] fs[i]),
    ensures
        text::split_str_spec(text::join_spec(fs, "§§"@) + "§§"@ + rest, "§§"@) == fs
            + text::split_str_spec(rest, "§§"@),
    decreases fs.len(),
{
    let sep = "§§"@;
    let tail = text::split_str_spec(rest, sep);
    if fs.len() == 1 {
        lemma_split_clean(fs[0], rest);
        assert(seq![fs[0]] + tail =~= fs + tail);
    } else {
        lemma_join_first(fs, sep);
        let more = fs.skip(1);
        assert forall|i: int| 0 <= i < more.len() implies clean(#[trigger] more[i]) by {
            assert(more[i] == fs[i + 1]);
        }
        lemma_split_joined(more, rest);
        let s = text::join_spec(more, sep) + sep + rest;
        assert(text::join_spec(fs, sep) + sep + rest =~= fs[0] + sep + s);
        lemma_split_clean(fs[0], s);
        assert(seq![fs[0]] + (more + tail) =~= fs + tail);
    }
}

/// The pieces of encoded fields are found as the fields are.
proof fn lemma_lookup(
    kvs: Seq<(Seq<char>, Seq<char>)>,
    parts: Seq<Seq<char>>,
    field: Seq<char>,
    i: int,
)
    requires
        0 <= i <= kvs.len(),
        kvs.len() < parts.len(),
        parts[kvs.len() as int] == "RAW"@,
        forall|k: int| 0 <= k < kvs.len() ==> #[trigger] parts[k] == field_texts(kvs)[k],
        forall|k: int|
            0 <= k < kvs.len() ==> text::find_char_spec((#[trigger] kvs[k]).0, '=') is None,
    ensures
        field_from(parts, field, i) == lookup(kvs, field, i),
    decreases kvs.len() - i,
{
    reveal_strlit("RAW");
    if i < kvs.len() {
        let k = kvs[i].0;
        let v = kvs[i].1;
        let p = parts[i];
        assert(p == field_texts(kvs)[i]);
        lemma_split_once(k, v);
        if p == "RAW"@ {
            reveal_strlit("=");
            assert(p[k.len() as int] == '=');
        }
        lemma_lookup(kvs, parts, field, i + 1);
    }
}

/// A field is cut at the sign behind its name.
pub proof fn lemma_split_once(k: Seq<char>, v: Seq<char>)
    requires
        text::find_char_spec(k, '=') is None,
    ensures
        text::split_once_spec(k + "="@ + v, '=') == Some((k, v)),
{
    reveal_strlit("=");
    let s = k + "="@ + v;
    let n = k.len() as int;
    text::lemma_find_char_from(k, '=', 0);
    assert(s[n] == '=');
    assert forall|j: int| 0 <= j < n implies s[j] != '=' by {
        assert(s[j] == k[j]);
    }
    text::lemma_find_char_is(s, '=', 0, n);
    assert(s.take(n) =~= k);
    assert(s.skip(n + 1) =~= v);
}

/// What was encoded is read back: the value of a field is the one it was
/// encoded with, and a field that was not encoded is not found, whatever the
/// raw output holds. A name must not hold the sign between name and value, nor
/// may a name or a value hold a separator or a value end with half of one.
pub proof fn law_fields_read_back(
    kvs: Seq<(Seq<char>, Seq<char>)>,
    raw: Seq<char>,
    field: Seq<char>,
)
    requires
        forall|k: int|
            0 <= k < kvs.len() ==> text::find_char_spec((#[trigger] kvs[k]).0, '=') is None,
        forall|k: int| 0 <= k < kvs.len() ==> clean(#[trigger] field_texts(kvs)[k]),
    ensures
        field_of(field, encoded(kvs, raw)) == lookup(kvs, field, 0),
{
    reveal_strlit("§§");
    reveal_strlit("§§RAW§§");
    reveal_strlit("RAW");
    reveal_strlit("=");
    let head = "§§FIELDS§§"@;
    let sep = "§§"@;
    let fs = field_texts(kvs);
    let s = encoded(kvs, raw);
    let body = text::join_spec(fs, sep) + "§§RAW§§"@ + raw;
    assert(s =~= head + body);
    assert(head.is_prefix_of(s)) by {
        assert(s.subrange(0, head.len() as int) =~= head);
    }
    assert(s.skip(head.len() as int) =~= body);
    assert("§§RAW§§"@ =~= sep + "RAW"@ + sep);
    let behind = "RAW"@ + sep + raw;
    assert(clean("RAW"@)) by {
        if text::has("RAW"@, sep) {
            let i = choose|i: int| text::occurs_at("RAW"@, sep, i);
            assert("RAW"@.subrange(i, i + 2)[0] == '§');
        }
    }
    lemma_split_clean("RAW"@, raw);
    let tail = text::split_str_spec(raw, sep);
    if kvs.len() == 0 {
        assert(body =~= Seq::<char>::empty() + sep + behind);
        assert(clean(Seq::<char>::empty()));
        lemma_split_clean(Seq::empty(), behind);
        let parts = text::split_str_spec(body, sep);
        assert(parts =~= seq![Seq::<char>::empty(), "RAW"@] + tail);
        assert(parts[0] == Seq::<char>::empty());
        assert(parts[1] == "RAW"@);
        assert(text::find_char_spec(Seq::<char>::empty(), '=') is None);
        reveal_with_fuel(field_from, 3);
    } else {
        assert(body =~= text::join_spec(fs, sep) + sep + behind);
        lemma_split_joined(fs, behind);
        let parts = text::split_str_spec(body, sep);
        assert(parts =~= fs + (seq!["RAW"@] + tail));
        assert(parts[kvs.len() as int] == "RAW"@);
        lemma_lookup(kvs, parts, field, 0);
    }
}

// ── Fields kept ──

/// Whether some field has the name.
pub open spec fn has_key(kvs: Seq<(Seq<char>, Seq<char>)>, x: Seq<char>) -> bool {
    exists|i: int| 0 <= i < kvs.len() && (#[trigger] kvs[i]).0 == x
}

/// The names of the fields.
pub open spec fn keys_of(kvs: Seq<(Seq<char>, Seq<char>)>) -> Set<Seq<char>> {
    Set::new(|x: Seq<char>| has_key(kvs, x))
}

/// How many of the fields upstream an output still has, and how many there
/// were.
pub open spec fn coverage(upstream: Seq<Seq<char>>, out: Seq<char>) -> Option<(nat, nat)> {
    let kvs = output_fields(out);
    if upstream.len() == 0 || kvs.len() == 0 {
        None
    } else {
        Some((upstream.to_set().intersect(keys_of(kvs)).len(), upstream.to_set().len()))
    }
}

/// How many of the fields upstream an output still has, and how many there
/// were; nothing where one side has no fields. The estimated loss is the part
/// that is missing.
pub fn field_coverage(upstream: &Vec<String>, out: &str) -> (r: Option<(usize, usize)>)
    ensures
        match r {
            Some((kept, all)) => coverage(text::views(upstream@), out@) == Some(
                (kept as nat, all as nat),
            ) && kept <= all && all > 0,
            None => coverage(text::views(upstream@), out@) is None,
        },
{
    if upstream.len() == 0 {
        return None;
    }
    let ghost uv = text::views(upstream@);
    let kvs = match parse_dsl_result_block(out) {
        Some(v) => v,
        None => {
            return None;
        },
    };
    let ghost kv = field_views(kvs@);
    let mut names = TextSet::new();
    crate::hyper_sig::insert_all(&mut names, upstream);
    assert(names@ =~= uv.to_set());
    let ghost s = names.seq();
    proof {
        order::lemma_ascending_distinct(s);
        s.unique_seq_to_set();
        assert(uv[0] == upstream@[0]@);
        assert(names@.contains(uv[0]));
    }
    let mut kept: usize = 0;
    let mut i: usize = 0;
    assert(s.take(0).to_set().intersect(keys_of(kv)) =~= Set::<Seq<char>>::empty());
    while i < names.len()
        invariant
            i <= s.len(),
            kept <= i,
            s == names.seq(),
            s.no_duplicates(),
            kv == field_views(kvs@),
            s.take(i as int).to_set().intersect(keys_of(kv)).finite(),
            kept == s.take(i as int).to_set().intersect(keys_of(kv)).len(),
        decreases s.len() - i,
    {
        let x = names.at(i);
        let mut found = false;
        let mut j: usize = 0;
        while j < kvs.len()
            invariant
                j <= kvs@.len(),
                kv == field_views(kvs@),
                found == exists|k: int| 0 <= k < j && (#[trigger] kv[k]).0 == x@,
            decreases kvs@.len() - j,
        {
            assert(kv[j as int].0 == kvs@[j as int].0@);
            if text::same(kvs[j].0.as_str(), x.as_str()) {
                found = true;
            }
            j += 1;
        }
        proof {
            let p = s.take(i as int);
            let q = s.take(i + 1);
            assert(q =~= p.push(x@));
            assert forall|y: Seq<char>| q.to_set().contains(y) <==> p.to_set().insert(
                x@,
            ).contains(y) by {
                if p.contains(y) {
                    let k = choose|k: int| 0 <= k < p.len() && p[k] == y;
                    assert(q[k] == y);
                }
                assert(q[i as int] == x@);
            }
            assert(q.to_set() =~= p.to_set().insert(x@));
            assert(!p.contains(x@)) by {
                if p.contains(x@) {
                    let k = choose|k: int| 0 <= k < p.len() && p[k] == x@;
                    assert(s[k] == s[i as int]);
                }
            }
            assert(found == has_key(kv, x@));
            if found {
                assert(q.to_set().intersect(keys_of(kv)) =~= p.to_set().intersect(
                    keys_of(kv),
                ).insert(x@));
            } else {
                assert(q.to_set().intersect(keys_of(kv)) =~= p.to_set().intersect(keys_of(kv)));
            }
        }
        if found {
            kept += 1;
        }
        i += 1;
    }
    assert(s.take(i as int) =~= s);
    proof {
        if s.len() == 0 {
            assert(names@ =~= Set::<Seq<char>>::empty());
        }
    }
    Some((kept, names.len()))
}

} // verus!

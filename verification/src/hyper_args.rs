//! The grammar of a hypergraph's directives: what stands between their
//! parentheses.

use crate::hyper;
use crate::hyper::{GHedge, GStage, GVertex, HedgeKind, HyperRequire, HyperRole, HyperStage, Hyperedge, Vertex};
use crate::order::TextSet;
use crate::text;
use vstd::prelude::*;

verus! {

// ── Pieces of a line ──

/// The line up to its comment.
pub open spec fn uncommented(line: Seq<char>) -> Seq<char> {
    match text::find_str_spec(line, "//"@) {
        Some(k) => line.take(k),
        None => line,
    }
}

/// The line up to its comment.
pub fn strip_comment(line: &str) -> (r: String)
    ensures
        r@ == uncommented(line@),
{
    match text::find_str(line, "//") {
        Some(k) => {
            proof {
                text::lemma_find_from(line@, "//"@, 0);
                assert(line@.take(k as int) =~= line@.subrange(0, k as int));
            }
            text::slice(line, 0, k)
        },
        None => line.to_owned(),
    }
}

/// Where the first quoted piece stands: its opening and its closing quote.
pub open spec fn quotes(s: Seq<char>) -> Option<(int, int)> {
    match text::find_char_spec(s, '"') {
        Some(a) => match text::find_char_from(s, '"', a + 1) {
            Some(b) => Some((a, b)),
            None => None,
        },
        None => None,
    }
}

/// Where the first quoted piece stands.
fn find_quotes(v: &Vec<char>) -> (r: Option<(usize, usize)>)
    ensures
        match r {
            Some((a, b)) => quotes(v@) == Some((a as int, b as int)) && a < b < v@.len(),
            None => quotes(v@) is None,
        },
{
    let n: usize = v.len();
    match text::find_char_in(v.as_slice(), '"', 0) {
        Some(a) => {
            proof {
                text::lemma_find_char_from(v@, '"', 0);
                assert(a < n);
                text::lemma_find_char_from(v@, '"', a + 1);
            }
            match text::find_char_in(v.as_slice(), '"', a + 1) {
                Some(b) => Some((a, b)),
                None => None,
            }
        },
        None => None,
    }
}

/// The first quoted piece.
pub open spec fn first_quoted(s: Seq<char>) -> Option<Seq<char>> {
    match quotes(s) {
        Some((a, b)) => Some(s.subrange(a + 1, b)),
        None => None,
    }
}

/// The first quoted piece.
pub fn extract_first_quoted(s: &str) -> (r: Option<String>)
    ensures
        text::opt_view(r) == first_quoted(s@),
{
    let v = text::chars_of(s);
    match find_quotes(&v) {
        Some((a, b)) => Some(text::string_of_range(v.as_slice(), a + 1, b)),
        None => None,
    }
}

/// What follows the first quoted piece and the commas after it.
pub open spec fn behind_quoted(s: Seq<char>) -> Seq<char> {
    match quotes(s) {
        Some((a, b)) => text::trimmed(text::front_spec(text::trimmed(s.skip(b + 1)), ","@)),
        None => s,
    }
}

/// What follows the first quoted piece and the commas after it.
pub fn skip_first_quoted(s: &str) -> (r: String)
    ensures
        r@ == behind_quoted(s@),
{
    let v = text::chars_of(s);
    match find_quotes(&v) {
        Some((a, b)) => {
            let rest = text::string_of_range(v.as_slice(), b + 1, v.len());
            assert(rest@ =~= s@.skip(b + 1));
            let t = text::trim(rest.as_str());
            let u = text::trim_front(t.as_str(), ",");
            text::trim(u.as_str())
        },
        None => s.to_owned(),
    }
}

/// The parenthesis that closes the first one: where the count of open ones,
/// `depth` before position `i`, comes back to zero.
pub open spec fn closing(s: Seq<char>, i: int, depth: int) -> Option<int>
    decreases s.len() - i,
{
    if i >= s.len() {
        None
    } else if s[i] == '(' {
        closing(s, i + 1, depth + 1)
    } else if s[i] == ')' {
        if depth == 1 {
            Some(i)
        } else {
            closing(s, i + 1, depth - 1)
        }
    } else {
        closing(s, i + 1, depth)
    }
}

/// A directive: its name, and what stands between its parentheses.
pub open spec fn directive(line: Seq<char>) -> Result<(Seq<char>, Seq<char>), Seq<char>> {
    let body = if line.len() > 0 && line[0] == '.' {
        line.skip(1)
    } else {
        line
    };
    match text::find_char_spec(body, '(') {
        None => Err("directive missing '(': "@ + line),
        Some(open) => match closing(body, 0, 0) {
            None => Err("unclosed '(': "@ + line),
            Some(end) => Ok(
                (
                    text::trimmed(body.take(open)),
                    text::trimmed(body.subrange(open + 1, end)),
                ),
            ),
        },
    }
}

/// The closing parenthesis is behind the first opening one.
proof fn lemma_closing(s: Seq<char>, i: int, depth: int, open: int)
    requires
        0 <= i,
        forall|j: int| i <= j < open ==> s[j] != '(',
        i <= open,
        depth <= 0,
    ensures
        closing(s, i, depth) matches Some(e) ==> open < e < s.len(),
    decreases s.len() - i,
{
    if i < s.len() {
        if i < open {
            if s[i] == ')' {
                lemma_closing(s, i + 1, depth - 1, open);
            } else {
                lemma_closing(s, i + 1, depth, open);
            }
        } else {
            lemma_closing_after(s, i, depth);
            if s[i] == ')' {
                lemma_closing_after(s, i + 1, depth - 1);
            } else if s[i] == '(' {
                lemma_closing_after(s, i + 1, depth + 1);
            } else {
                lemma_closing_after(s, i + 1, depth);
            }
        }
    }
}

proof fn lemma_closing_after(s: Seq<char>, i: int, depth: int)
    requires
        0 <= i,
    ensures
        closing(s, i, depth) matches Some(e) ==> i <= e < s.len(),
    decreases s.len() - i,
{
    if i < s.len() {
        lemma_closing_after(s, i + 1, depth);
        lemma_closing_after(s, i + 1, depth + 1);
        lemma_closing_after(s, i + 1, depth - 1);
    }
}

/// A directive with its name and arguments as texts.
pub open spec fn pair_view(r: Result<(String, String), String>) -> Result<
    (Seq<char>, Seq<char>),
    Seq<char>,
> {
    match r {
        Ok((a, b)) => Ok((a@, b@)),
        Err(e) => Err(e@),
    }
}

/// A directive: its name, and what stands between its parentheses.
pub fn split_directive(line: &str) -> (r: Result<(String, String), String>)
    ensures
        pair_view(r) == directive(line@),
{
    let v = text::chars_of(line);
    let start: usize = if v.len() > 0 && v[0] == '.' {
        1
    } else {
        0
    };
    let body_s = text::string_of_range(v.as_slice(), start, v.len());
    let body = text::chars_of(body_s.as_str());
    proof {
        assert(body@ =~= (if line@.len() > 0 && line@[0] == '.' {
            line@.skip(1)
        } else {
            line@
        }));
        text::lemma_find_char_from(body@, '(', 0);
    }
    let open = match text::find_char_in(body.as_slice(), '(', 0) {
        Some(k) => k,
        None => {
            let mut m = "directive missing '(': ".to_owned();
            m.append(line);
            return Err(m);
        },
    };
    let mut depth: i128 = 0;
    let mut end: Option<usize> = None;
    let mut i: usize = 0;
    let n: usize = body.len();
    while i < n && end.is_none()
        invariant
            i <= n,
            n == body@.len(),
            -(i as int) <= depth <= i,
            match end {
                None => closing(body@, 0, 0) == closing(body@, i as int, depth as int),
                Some(e) => closing(body@, 0, 0) == Some(e as int),
            },
        decreases n - i + (if end is None {
            1int
        } else {
            0int
        }),
    {
        let c = body[i];
        if c == '(' {
            depth = depth + 1;
        } else if c == ')' {
            depth = depth - 1;
            if depth == 0 {
                end = Some(i);
            }
        }
        i += 1;
    }
    match end {
        Some(e) => {
            proof {
                lemma_closing(body@, 0, 0, open as int);
                assert(body@.take(open as int) =~= body@.subrange(0, open as int));
            }
            let name = text::string_of_range(body.as_slice(), 0, open);
            let args = text::string_of_range(body.as_slice(), open + 1, e);
            Ok((text::trim(name.as_str()), text::trim(args.as_str())))
        },
        None => {
            let mut m = "unclosed '(': ".to_owned();
            m.append(line);
            Err(m)
        },
    }
}

/// The pieces between the commas that stand outside quotes and brackets, from
/// `start` on; a blank last piece is no piece.
pub open spec fn top_pieces(s: Seq<char>, i: int, start: int, depth: int, quoted: bool) -> Seq<
    Seq<char>,
>
    decreases s.len() - i,
{
    if i >= s.len() {
        let last = s.subrange(start, s.len() as int);
        if text::trimmed(last).len() > 0 {
            seq![last]
        } else {
            Seq::empty()
        }
    } else if s[i] == '"' {
        top_pieces(s, i + 1, start, depth, !quoted)
    } else if (s[i] == '(' || s[i] == '[') && !quoted {
        top_pieces(s, i + 1, start, depth + 1, quoted)
    } else if (s[i] == ')' || s[i] == ']') && !quoted {
        top_pieces(s, i + 1, start, depth - 1, quoted)
    } else if s[i] == ',' && !quoted && depth == 0 {
        seq![s.subrange(start, i)] + top_pieces(s, i + 1, i + 1, depth, quoted)
    } else {
        top_pieces(s, i + 1, start, depth, quoted)
    }
}

/// The pieces between the commas that stand outside quotes and brackets.
pub fn split_top_commas(s: &str) -> (r: Vec<String>)
    ensures
        text::views(r@) == top_pieces(s@, 0, 0, 0, false),
{
    let v = text::chars_of(s);
    let n: usize = v.len();
    let mut out: Vec<String> = Vec::new();
    let mut depth: i128 = 0;
    let mut quoted = false;
    let mut start: usize = 0;
    let mut i: usize = 0;
    assert(text::views(out@) + top_pieces(s@, 0, 0, 0, false) =~= top_pieces(s@, 0, 0, 0, false));
    while i < n
        invariant
            start <= i <= n,
            n == v@.len(),
            v@ == s@,
            -(i as int) <= depth <= i,
            text::views(out@) + top_pieces(s@, i as int, start as int, depth as int, quoted)
                == top_pieces(s@, 0, 0, 0, false),
        decreases n - i,
    {
        let c = v[i];
        if c == '"' {
            quoted = !quoted;
        } else if (c == '(' || c == '[') && !quoted {
            depth = depth + 1;
        } else if (c == ')' || c == ']') && !quoted {
            depth = depth - 1;
        } else if c == ',' && !quoted && depth == 0 {
            let ghost before = out@;
            out.push(text::string_of_range(v.as_slice(), start, i));
            proof {
                let p = s@.subrange(start as int, i as int);
                let rest = top_pieces(s@, i + 1, i + 1, depth as int, quoted);
                assert(text::views(out@) =~= text::views(before).push(p));
                assert(text::views(out@) + rest =~= text::views(before) + (seq![p] + rest));
            }
            start = i + 1;
        }
        i += 1;
    }
    let last = text::string_of_range(v.as_slice(), start, n);
    let ghost before = out@;
    if !text::is_blank(last.as_str()) {
        out.push(last);
        assert(text::views(out@) =~= text::views(before) + seq![last@]);
    } else {
        assert(text::views(out@) + Seq::<Seq<char>>::empty() =~= text::views(out@));
    }
    out
}

/// A piece that goes on a list of tags.
pub open spec fn more_tags(p: Seq<char>) -> bool {
    let t = text::trimmed(p);
    t.len() > 0 && t[0] == '#' && text::find_char_spec(t, '=') is None
}

/// The list of tags `blob` with the pieces from the `j`-th on that go on it, and
/// where they end.
pub open spec fn tag_blob(parts: Seq<Seq<char>>, blob: Seq<char>, j: int) -> (Seq<char>, int)
    decreases parts.len() - j,
{
    if j < parts.len() && more_tags(parts[j]) {
        tag_blob(parts, blob + ","@ + text::trimmed(parts[j]), j + 1)
    } else {
        (blob, j)
    }
}

proof fn lemma_tag_blob(parts: Seq<Seq<char>>, blob: Seq<char>, j: int)
    requires
        0 <= j <= parts.len(),
    ensures
        j <= tag_blob(parts, blob, j).1 <= parts.len(),
    decreases parts.len() - j,
{
    if j < parts.len() && more_tags(parts[j]) {
        lemma_tag_blob(parts, blob + ","@ + text::trimmed(parts[j]), j + 1);
    }
}

/// The pieces from the `i`-th on, trimmed, each list of tags in one piece again.
pub open spec fn rejoined(parts: Seq<Seq<char>>, i: int) -> Seq<Seq<char>>
    decreases parts.len() - i,
{
    if i < 0 || i >= parts.len() {
        Seq::empty()
    } else {
        let p = text::trimmed(parts[i]);
        if "tags="@.is_prefix_of(p) {
            let (blob, j) = tag_blob(parts, p, i + 1);
            if i < j <= parts.len() {
                seq![blob] + rejoined(parts, j)
            } else {
                seq![blob]
            }
        } else {
            seq![p] + rejoined(parts, i + 1)
        }
    }
}

/// The pieces, trimmed, each list of tags in one piece again.
pub fn merge_tag_continuations(parts: &Vec<String>) -> (r: Vec<String>)
    ensures
        text::views(r@) == rejoined(text::views(parts@), 0),
{
    let ghost pv = text::views(parts@);
    let mut out: Vec<String> = Vec::new();
    let mut i: usize = 0;
    let n: usize = parts.len();
    assert(text::views(out@) + rejoined(pv, 0) =~= rejoined(pv, 0));
    while i < n
        invariant
            i <= n,
            n == parts@.len(),
            pv == text::views(parts@),
            text::views(out@) + rejoined(pv, i as int) == rejoined(pv, 0),
        decreases n - i,
    {
        let p = text::trim(parts[i].as_str());
        let ghost before = out@;
        if text::starts_with(p.as_str(), "tags=") {
            let ghost p0 = p@;
            let mut blob = p;
            let mut j: usize = i + 1;
            let mut go = true;
            while j < n && go
                invariant
                    i < j <= n,
                    n == parts@.len(),
                    pv == text::views(parts@),
                    go ==> tag_blob(pv, p0, i + 1) == tag_blob(pv, blob@, j as int),
                    !go ==> tag_blob(pv, p0, i + 1) == (blob@, j as int),
                decreases n - j + (if go {
                    1int
                } else {
                    0int
                }),
            {
                let t = text::trim(parts[j].as_str());
                if text::starts_with_char(t.as_str(), '#') && text::find_char(
                    t.as_str(),
                    '=',
                ).is_none() {
                    blob.append(",");
                    blob.append(t.as_str());
                    j += 1;
                } else {
                    go = false;
                }
            }
            let ghost bv = blob@;
            out.push(blob);
            proof {
                lemma_tag_blob(pv, p0, i + 1);
                let rest = rejoined(pv, j as int);
                assert(text::views(out@) =~= text::views(before).push(bv));
                assert(text::views(out@) + rest =~= text::views(before) + (seq![bv] + rest));
            }
            i = j;
        } else {
            let ghost p0 = p@;
            out.push(p);
            proof {
                let rest = rejoined(pv, i + 1);
                assert(text::views(out@) =~= text::views(before).push(p0));
                assert(text::views(out@) + rest =~= text::views(before) + (seq![p0] + rest));
            }
            i += 1;
        }
    }
    assert(text::views(out@) + rejoined(pv, i as int) =~= text::views(out@));
    out
}

// ── Lists ──

/// A tag without the marks in front.
pub open spec fn bare_tag(p: Seq<char>) -> Seq<char> {
    text::front_spec(text::trimmed(p), "#"@)
}

/// The tags of the first `n` pieces.
pub open spec fn tags_of_pieces(ps: Seq<Seq<char>>, n: int) -> Set<Seq<char>>
    decreases n,
{
    if n <= 0 {
        Set::empty()
    } else {
        let t = bare_tag(ps[n - 1]);
        if t.len() > 0 {
            tags_of_pieces(ps, n - 1).insert(t)
        } else {
            tags_of_pieces(ps, n - 1)
        }
    }
}

/// The tags of a list.
pub open spec fn tag_list(v: Seq<char>) -> Set<Seq<char>> {
    let ps = text::split_char_spec(v, ',');
    tags_of_pieces(ps, ps.len() as int)
}

/// The tags of a list.
pub fn parse_tag_list(v: &str) -> (r: TextSet)
    ensures
        r.wf(),
        r@ == tag_list(v@),
{
    let ps = text::split_char(v, ',');
    let ghost pv = text::views(ps@);
    let mut out = TextSet::new();
    let mut i: usize = 0;
    while i < ps.len()
        invariant
            i <= ps@.len(),
            pv == text::views(ps@),
            out.wf(),
            out@ == tags_of_pieces(pv, i as int),
        decreases ps@.len() - i,
    {
        let t = text::trim(ps[i].as_str());
        let b = text::trim_front(t.as_str(), "#");
        if !b.as_str().is_empty() {
            out.insert(b);
        }
        i += 1;
    }
    out
}

/// A name without the marks in front.
pub open spec fn bare_name(s: Seq<char>) -> Seq<char> {
    text::front_spec(text::trimmed(s), "@"@)
}

/// A name without the marks in front.
pub fn strip_at(s: &str) -> (r: String)
    ensures
        r@ == bare_name(s@),
{
    let t = text::trim(s);
    text::trim_front(t.as_str(), "@")
}

/// The names among the first `n` pieces.
pub open spec fn names_of_pieces(ps: Seq<Seq<char>>, n: int) -> Seq<Seq<char>>
    decreases n,
{
    if n <= 0 {
        Seq::empty()
    } else {
        let t = bare_name(text::trimmed(ps[n - 1]));
        if t.len() > 0 {
            names_of_pieces(ps, n - 1).push(t)
        } else {
            names_of_pieces(ps, n - 1)
        }
    }
}

/// The names of a list, whose members stand between plus signs or commas.
pub open spec fn name_list(v: Seq<char>) -> Seq<Seq<char>> {
    let ps = text::split_set_spec(text::trim_set_spec(text::trimmed(v), "\"'"@), "+,"@);
    names_of_pieces(ps, ps.len() as int)
}

/// The names of a list.
pub fn parse_name_list(v: &str) -> (r: Vec<String>)
    ensures
        text::views(r@) == name_list(v@),
{
    let t = text::trim(v);
    let u = text::trim_set(t.as_str(), "\"'");
    let ps = text::split_set(u.as_str(), "+,");
    let ghost pv = text::views(ps@);
    let mut out: Vec<String> = Vec::new();
    let mut i: usize = 0;
    assert(text::views(out@) =~= Seq::<Seq<char>>::empty());
    while i < ps.len()
        invariant
            i <= ps@.len(),
            pv == text::views(ps@),
            text::views(out@) == names_of_pieces(pv, i as int),
        decreases ps@.len() - i,
    {
        let t = text::trim(ps[i].as_str());
        let b = strip_at(t.as_str());
        if !b.as_str().is_empty() {
            let ghost before = out@;
            let ghost bv = b@;
            out.push(b);
            assert(text::views(out@) =~= text::views(before).push(bv));
        }
        i += 1;
    }
    out
}

/// A truth value as a word.
pub open spec fn bool_result(v: Seq<char>) -> Result<bool, Seq<char>> {
    let w = text::lower_ascii_spec(v);
    if w == "true"@ || w == "1"@ || w == "yes"@ {
        Ok(true)
    } else if w == "false"@ || w == "0"@ || w == "no"@ {
        Ok(false)
    } else {
        Err("bad bool "@ + text::debug_quoted(w))
    }
}

/// A truth value as a word.
pub fn parse_bool(v: &str) -> (r: Result<bool, String>)
    ensures
        hyper::res_view(r) == bool_result(v@),
{
    let w = text::ascii_lowercase(v);
    let x = w.as_str();
    if text::same(x, "true") || text::same(x, "1") || text::same(x, "yes") {
        Ok(true)
    } else if text::same(x, "false") || text::same(x, "0") || text::same(x, "no") {
        Ok(false)
    } else {
        let mut m = "bad bool ".to_owned();
        m.append(text::debug_quote(x).as_str());
        Err(m)
    }
}

// ── Directives ──

/// The requirements with the pieces from the `i`-th on applied.
pub open spec fn require_from(req: HyperRequire, ps: Seq<Seq<char>>, i: int) -> Result<
    HyperRequire,
    Seq<char>,
>
    decreases ps.len() - i,
{
    if i >= ps.len() {
        Ok(req)
    } else {
        let p = text::trimmed(ps[i]);
        if p.len() == 0 {
            require_from(req, ps, i + 1)
        } else {
            match text::split_once_spec(p, '=') {
                None => Err(
                    ".require expects key=value pairs, got "@ + text::debug_quoted(
                        text::cut_spec(p, 40),
                    ),
                ),
                Some((k, v)) => {
                    let key = text::trimmed(k);
                    let val = text::trimmed(v);
                    if key == "judge"@ {
                        match bool_result(val) {
                            Ok(b) => require_from(
                                HyperRequire { judge: b, min_impls: req.min_impls },
                                ps,
                                i + 1,
                            ),
                            Err(e) => Err(e),
                        }
                    } else if key == "min_impls"@ {
                        match text::unsigned_spec(val, usize::MAX as nat) {
                            None => Err("bad min_impls "@ + text::debug_quoted(val)),
                            Some(n) => if n == 0 {
                                Err("min_impls must be >= 1"@)
                            } else {
                                require_from(
                                    HyperRequire { judge: req.judge, min_impls: n as usize },
                                    ps,
                                    i + 1,
                                )
                            },
                        }
                    } else {
                        Err("unknown require key "@ + text::debug_quoted(key))
                    }
                },
            }
        }
    }
}

/// The requirements with those of a directive applied.
pub open spec fn required(req: HyperRequire, args: Seq<char>) -> Result<HyperRequire, Seq<char>> {
    require_from(req, top_pieces(args, 0, 0, 0, false), 0)
}

/// The requirements with those of a directive applied.
pub fn apply_require(req: HyperRequire, args: &str) -> (r: Result<HyperRequire, String>)
    ensures
        hyper::res_view(r) == required(req, args@),
{
    let ps = split_top_commas(args);
    let ghost pv = text::views(ps@);
    let mut cur = req;
    let mut i: usize = 0;
    while i < ps.len()
        invariant
            i <= ps@.len(),
            pv == text::views(ps@),
            required(req, args@) == require_from(cur, pv, i as int),
        decreases ps@.len() - i,
    {
        let p = text::trim(ps[i].as_str());
        if !p.as_str().is_empty() {
            match text::split_once(p.as_str(), '=') {
                None => {
                    let mut m = ".require expects key=value pairs, got ".to_owned();
                    let c = text::cut(p.as_str(), 40);
                    m.append(text::debug_quote(c.as_str()).as_str());
                    return Err(m);
                },
                Some((k, v)) => {
                    let key = text::trim(k.as_str());
                    let val = text::trim(v.as_str());
                    if text::same(key.as_str(), "judge") {
                        match parse_bool(val.as_str()) {
                            Ok(b) => {
                                cur = HyperRequire { judge: b, min_impls: cur.min_impls };
                            },
                            Err(e) => {
                                return Err(e);
                            },
                        }
                    } else if text::same(key.as_str(), "min_impls") {
                        match text::parse_unsigned(val.as_str(), usize::MAX as u64) {
                            None => {
                                let mut m = "bad min_impls ".to_owned();
                                m.append(text::debug_quote(val.as_str()).as_str());
                                return Err(m);
                            },
                            Some(n) => {
                                if n == 0 {
                                    return Err("min_impls must be >= 1".to_owned());
                                }
                                cur = HyperRequire { judge: cur.judge, min_impls: n as usize };
                            },
                        }
                    } else {
                        let mut m = "unknown require key ".to_owned();
                        m.append(text::debug_quote(key.as_str()).as_str());
                        return Err(m);
                    }
                },
            }
        }
        i += 1;
    }
    Ok(cur)
}

/// The vertex `v` with the pieces from the `i`-th on applied.
pub open spec fn vertex_from(v: GVertex, ps: Seq<Seq<char>>, i: int) -> Result<GVertex, Seq<char>>
    decreases ps.len() - i,
{
    if i >= ps.len() {
        Ok(v)
    } else {
        let p = text::trimmed(ps[i]);
        if p.len() == 0 {
            vertex_from(v, ps, i + 1)
        } else {
            match text::split_once_spec(p, '=') {
                Some((k, x)) => {
                    let key = text::trimmed(k);
                    let val = text::trimmed(x);
                    if key == "role"@ {
                        match hyper::role_result(val) {
                            Ok(role) => vertex_from(
                                GVertex { name: v.name, role, tags: v.tags },
                                ps,
                                i + 1,
                            ),
                            Err(e) => Err(e),
                        }
                    } else if key == "tags"@ {
                        vertex_from(
                            GVertex { name: v.name, role: v.role, tags: tag_list(val) },
                            ps,
                            i + 1,
                        )
                    } else {
                        Err("unknown vertex key "@ + text::debug_quoted(key))
                    }
                },
                None => if p[0] == '#' {
                    vertex_from(
                        GVertex { name: v.name, role: v.role, tags: v.tags.union(tag_list(p)) },
                        ps,
                        i + 1,
                    )
                } else {
                    Err("bad vertex arg "@ + text::debug_quoted(text::cut_spec(p, 40)))
                },
            }
        }
    }
}

/// The arguments behind the name, each list of tags in one piece.
pub open spec fn named_pieces(args: Seq<char>) -> Seq<Seq<char>> {
    rejoined(top_pieces(behind_quoted(args), 0, 0, 0, false), 0)
}

/// The vertex of a directive.
pub open spec fn vertex_result(args: Seq<char>) -> Result<GVertex, Seq<char>> {
    match first_quoted(args) {
        None => Err(".vertex(\"name\", ...) needs a quoted name"@),
        Some(name) => vertex_from(
            GVertex { name, role: HyperRole::Default, tags: Set::empty() },
            named_pieces(args),
            0,
        ),
    }
}

/// Adds every member of `from` to `into`.
fn add_tags(into: &mut TextSet, from: &TextSet)
    requires
        old(into).wf(),
    ensures
        final(into).wf(),
        final(into)@ == old(into)@.union(from@),
{
    crate::ast::add_all(into, from);
}

/// A vertex, or what is wrong, as values.
pub open spec fn vertex_view(r: Result<Vertex, String>) -> Result<GVertex, Seq<char>> {
    match r {
        Ok(v) => Ok(v@),
        Err(e) => Err(e@),
    }
}

/// The vertex of a directive.
pub fn parse_vertex(args: &str) -> (r: Result<Vertex, String>)
    ensures
        vertex_view(r) == vertex_result(args@),
        r matches Ok(v) ==> v.tags.wf(),
{
    let name = match extract_first_quoted(args) {
        Some(n) => n,
        None => {
            return Err(".vertex(\"name\", ...) needs a quoted name".to_owned());
        },
    };
    let rest = skip_first_quoted(args);
    let raw = split_top_commas(rest.as_str());
    let ps = merge_tag_continuations(&raw);
    let ghost pv = text::views(ps@);
    let mut role = HyperRole::Default;
    let mut tags = TextSet::new();
    let mut i: usize = 0;
    while i < ps.len()
        invariant
            i <= ps@.len(),
            pv == text::views(ps@),
            tags.wf(),
            vertex_result(args@) == vertex_from(
                GVertex { name: name@, role, tags: tags@ },
                pv,
                i as int,
            ),
        decreases ps@.len() - i,
    {
        let p = text::trim(ps[i].as_str());
        if !p.as_str().is_empty() {
            match text::split_once(p.as_str(), '=') {
                Some((k, x)) => {
                    let key = text::trim(k.as_str());
                    let val = text::trim(x.as_str());
                    if text::same(key.as_str(), "role") {
                        match HyperRole::parse(val.as_str()) {
                            Ok(ro) => {
                                role = ro;
                            },
                            Err(e) => {
                                return Err(e);
                            },
                        }
                    } else if text::same(key.as_str(), "tags") {
                        tags = parse_tag_list(val.as_str());
                    } else {
                        let mut m = "unknown vertex key ".to_owned();
                        m.append(text::debug_quote(key.as_str()).as_str());
                        return Err(m);
                    }
                },
                None => {
                    if text::starts_with_char(p.as_str(), '#') {
                        let more = parse_tag_list(p.as_str());
                        add_tags(&mut tags, &more);
                    } else {
                        let mut m = "bad vertex arg ".to_owned();
                        let c = text::cut(p.as_str(), 40);
                        m.append(text::debug_quote(c.as_str()).as_str());
                        return Err(m);
                    }
                },
            }
        }
        i += 1;
    }
    Ok(Vertex { name, role, tags })
}

/// The stage `s` with the pieces from the `i`-th on applied.
pub open spec fn stage_from(s: GStage, ps: Seq<Seq<char>>, i: int) -> Result<GStage, Seq<char>>
    decreases ps.len() - i,
{
    if i >= ps.len() {
        Ok(s)
    } else {
        let p = text::trimmed(ps[i]);
        if p.len() == 0 {
            stage_from(s, ps, i + 1)
        } else {
            match text::split_once_spec(p, '=') {
                Some((k, x)) => {
                    let key = text::trimmed(k);
                    let val = text::trimmed(x);
                    if key == "role"@ {
                        match hyper::role_result(val) {
                            Ok(role) => stage_from(GStage { role, ..s }, ps, i + 1),
                            Err(e) => Err(e),
                        }
                    } else if key == "tags"@ {
                        stage_from(GStage { tags: tag_list(val), ..s }, ps, i + 1)
                    } else if key == "after"@ {
                        stage_from(GStage { after: name_list(val), ..s }, ps, i + 1)
                    } else if key == "gated_by"@ || key == "gate"@ {
                        stage_from(GStage { gated_by: Some(bare_name(val)), ..s }, ps, i + 1)
                    } else {
                        Err("unknown stage key "@ + text::debug_quoted(key))
                    }
                },
                None => if text::find_char_spec(p, '#') is Some {
                    stage_from(GStage { tags: s.tags.union(tag_list(p)), ..s }, ps, i + 1)
                } else {
                    Err("bad stage arg "@ + text::debug_quoted(text::cut_spec(p, 40)))
                },
            }
        }
    }
}

/// The stage of a directive.
pub open spec fn stage_result(args: Seq<char>) -> Result<GStage, Seq<char>> {
    match first_quoted(args) {
        None => Err(".stage(\"name\", ...) needs a quoted stage name"@),
        Some(name) => stage_from(
            GStage {
                name,
                role: HyperRole::Default,
                tags: Set::empty(),
                after: Seq::empty(),
                gated_by: None,
                min_impls: 1,
            },
            named_pieces(args),
            0,
        ),
    }
}

/// A stage, or what is wrong, as values.
pub open spec fn stage_view(r: Result<HyperStage, String>) -> Result<GStage, Seq<char>> {
    match r {
        Ok(v) => Ok(v@),
        Err(e) => Err(e@),
    }
}

/// The stage of a directive.
pub fn parse_stage(args: &str) -> (r: Result<HyperStage, String>)
    ensures
        stage_view(r) == stage_result(args@),
        r matches Ok(v) ==> v.tags.wf(),
{
    let name = match extract_first_quoted(args) {
        Some(n) => n,
        None => {
            return Err(".stage(\"name\", ...) needs a quoted stage name".to_owned());
        },
    };
    let rest = skip_first_quoted(args);
    let raw = split_top_commas(rest.as_str());
    let ps = merge_tag_continuations(&raw);
    let ghost pv = text::views(ps@);
    let mut st = HyperStage {
        name,
        role: HyperRole::Default,
        tags: TextSet::new(),
        after: Vec::new(),
        gated_by: None,
        min_impls: 1,
    };
    assert(text::views(st.after@) =~= Seq::<Seq<char>>::empty());
    let mut i: usize = 0;
    while i < ps.len()
        invariant
            i <= ps@.len(),
            pv == text::views(ps@),
            st.tags.wf(),
            stage_result(args@) == stage_from(st@, pv, i as int),
        decreases ps@.len() - i,
    {
        let p = text::trim(ps[i].as_str());
        if !p.as_str().is_empty() {
            match text::split_once(p.as_str(), '=') {
                Some((k, x)) => {
                    let key = text::trim(k.as_str());
                    let val = text::trim(x.as_str());
                    if text::same(key.as_str(), "role") {
                        match HyperRole::parse(val.as_str()) {
                            Ok(ro) => {
                                st.role = ro;
                            },
                            Err(e) => {
                                return Err(e);
                            },
                        }
                    } else if text::same(key.as_str(), "tags") {
                        st.tags = parse_tag_list(val.as_str());
                    } else if text::same(key.as_str(), "after") {
                        st.after = parse_name_list(val.as_str());
                    } else if text::same(key.as_str(), "gated_by") || text::same(
                        key.as_str(),
                        "gate",
                    ) {
                        st.gated_by = Some(strip_at(val.as_str()));
                    } else {
                        let mut m = "unknown stage key ".to_owned();
                        m.append(text::debug_quote(key.as_str()).as_str());
                        return Err(m);
                    }
                },
                None => {
                    if text::find_char(p.as_str(), '#').is_some() {
                        let more = parse_tag_list(p.as_str());
                        let mut tags = st.tags.duplicate();
                        add_tags(&mut tags, &more);
                        st.tags = tags;
                    } else {
                        let mut m = "bad stage arg ".to_owned();
                        let c = text::cut(p.as_str(), 40);
                        m.append(text::debug_quote(c.as_str()).as_str());
                        return Err(m);
                    }
                },
            }
        }
        i += 1;
    }
    Ok(st)
}

/// The target of a delivery.
pub open spec fn deliver_result(args: Seq<char>) -> Result<Seq<char>, Seq<char>> {
    match first_quoted(args) {
        Some(q) => Ok(q),
        None => {
            let t = bare_name(args);
            let name = text::trim_set_spec(t, ")(\" "@);
            if t.len() == 0 || name.len() == 0 {
                Err(".deliver needs a stage name"@)
            } else {
                Ok(name)
            }
        },
    }
}

/// A text, or what is wrong, as values.
pub open spec fn text_result(r: Result<String, String>) -> Result<Seq<char>, Seq<char>> {
    match r {
        Ok(v) => Ok(v@),
        Err(e) => Err(e@),
    }
}

/// The target of a delivery.
pub fn parse_deliver_arg(args: &str) -> (r: Result<String, String>)
    ensures
        text_result(r) == deliver_result(args@),
{
    match extract_first_quoted(args) {
        Some(q) => {
            return Ok(q);
        },
        None => {},
    }
    let t = strip_at(args);
    if t.as_str().is_empty() {
        return Err(".deliver needs a stage name".to_owned());
    }
    let name = text::trim_set(t.as_str(), ")(\" ");
    if name.as_str().is_empty() {
        return Err(".deliver needs a stage name".to_owned());
    }
    Ok(name)
}

// ── Edges ──

/// What the arguments of an edge say before they are put together.
pub struct GPorts {
    pub kind: HedgeKind,
    pub members: Seq<Seq<char>>,
    pub judge: Option<Seq<char>>,
    pub producers: Seq<Seq<char>>,
    pub consumers: Seq<Seq<char>>,
}

/// The ports `h` with the pieces from the `i`-th on applied.
pub open spec fn ports_from(h: GPorts, ps: Seq<Seq<char>>, i: int) -> Result<GPorts, Seq<char>>
    decreases ps.len() - i,
{
    if i >= ps.len() {
        Ok(h)
    } else {
        let p = text::trimmed(ps[i]);
        if p.len() == 0 {
            ports_from(h, ps, i + 1)
        } else {
            match text::split_once_spec(p, '=') {
                Some((k, x)) => {
                    let key = text::trimmed(k);
                    let val = text::trimmed(x);
                    if key == "kind"@ {
                        match hyper::kind_result(val) {
                            Ok(kind) => ports_from(GPorts { kind, ..h }, ps, i + 1),
                            Err(e) => Err(e),
                        }
                    } else if key == "judge"@ {
                        ports_from(
                            GPorts {
                                judge: Some(bare_name(text::trim_set_spec(val, "\"'"@))),
                                ..h
                            },
                            ps,
                            i + 1,
                        )
                    } else if key == "producers"@ || key == "producer"@ {
                        ports_from(
                            GPorts { producers: h.producers + name_list(val), ..h },
                            ps,
                            i + 1,
                        )
                    } else if key == "consumers"@ || key == "consumer"@ {
                        ports_from(
                            GPorts { consumers: h.consumers + name_list(val), ..h },
                            ps,
                            i + 1,
                        )
                    } else {
                        Err("unknown hedge key "@ + text::debug_quoted(key))
                    }
                },
                None => ports_from(
                    GPorts {
                        members: h.members.push(bare_name(text::trim_set_spec(p, "\"'"@))),
                        ..h
                    },
                    ps,
                    i + 1,
                ),
            }
        }
    }
}

/// `ms` with the first `n` of `more` that it does not hold yet.
pub open spec fn with_new(ms: Seq<Seq<char>>, more: Seq<Seq<char>>, n: int) -> Seq<Seq<char>>
    decreases n,
{
    if n <= 0 {
        ms
    } else {
        let before = with_new(ms, more, n - 1);
        if before.contains(more[n - 1]) {
            before
        } else {
            before.push(more[n - 1])
        }
    }
}

/// The members of a gate: its producers, its judge and its consumers, each once.
pub open spec fn gate_members(
    judge: Seq<char>,
    producers: Seq<Seq<char>>,
    consumers: Seq<Seq<char>>,
) -> Seq<Seq<char>> {
    let a = with_new(Seq::empty(), producers, producers.len() as int);
    let b = with_new(a, seq![judge], 1);
    with_new(b, consumers, consumers.len() as int)
}

/// A gate.
pub open spec fn gate_of(
    name: Seq<char>,
    judge: Seq<char>,
    producers: Seq<Seq<char>>,
    consumers: Seq<Seq<char>>,
) -> GHedge {
    GHedge {
        name,
        kind: HedgeKind::Gate,
        members: gate_members(judge, producers, consumers),
        judge: Some(judge),
        producers,
        consumers,
    }
}

/// An edge with members alone.
pub open spec fn simple_of(name: Seq<char>, kind: HedgeKind, members: Seq<Seq<char>>) -> GHedge {
    GHedge {
        name,
        kind,
        members,
        judge: None,
        producers: Seq::empty(),
        consumers: Seq::empty(),
    }
}

/// The edge with these ports.
pub open spec fn hedge_of(name: Seq<char>, h: GPorts) -> Result<GHedge, Seq<char>> {
    if h.kind == HedgeKind::Gate {
        match h.judge {
            Some(j) if h.consumers.len() > 0 => if h.members.len() > 0 {
                Err(
                    "gate hedge "@ + text::debug_quoted(name)
                        + " must use ports (judge=/producers=/consumers=), not bare member list"@,
                )
            } else {
                Ok(gate_of(name, j, h.producers, h.consumers))
            },
            _ => Err(
                "gate hedge "@ + text::debug_quoted(name)
                    + " needs judge=… and consumers=… (producers= optional; positional members rejected)"@,
            ),
        }
    } else if h.judge is Some || h.producers.len() > 0 || h.consumers.len() > 0 {
        Err(
            "hedge "@ + text::debug_quoted(name) + " kind="@ + hyper::kind_name(h.kind)
                + " uses member list, not gate ports"@,
        )
    } else if h.members.len() == 0 {
        Err("hedge "@ + text::debug_quoted(name) + " needs member vertices"@)
    } else {
        Ok(simple_of(name, h.kind, h.members))
    }
}

/// The edge of a directive.
pub open spec fn hedge_result(args: Seq<char>) -> Result<GHedge, Seq<char>> {
    match first_quoted(args) {
        None => Err(".hedge(\"name\", kind=..., …) needs a name"@),
        Some(name) => match ports_from(
            GPorts {
                kind: HedgeKind::Chain,
                members: Seq::empty(),
                judge: None,
                producers: Seq::empty(),
                consumers: Seq::empty(),
            },
            top_pieces(behind_quoted(args), 0, 0, 0, false),
            0,
        ) {
            Ok(h) => hedge_of(name, h),
            Err(e) => Err(e),
        },
    }
}

/// Adds those of `more` that `ms` does not hold yet.
fn push_new(ms: &mut Vec<String>, more: &Vec<String>)
    ensures
        text::views(final(ms)@) == with_new(
            text::views(old(ms)@),
            text::views(more@),
            more@.len() as int,
        ),
{
    let ghost m0 = text::views(ms@);
    let ghost mv = text::views(more@);
    let mut i: usize = 0;
    while i < more.len()
        invariant
            i <= more@.len(),
            mv == text::views(more@),
            text::views(ms@) == with_new(m0, mv, i as int),
        decreases more@.len() - i,
    {
        if !text::is_one_of(more[i].as_str(), ms) {
            let ghost before = ms@;
            ms.push(more[i].clone());
            assert(text::views(ms@) =~= text::views(before).push(mv[i as int]));
        }
        i += 1;
    }
}

/// A gate.
pub fn hedge_gate(
    name: String,
    judge: String,
    producers: Vec<String>,
    consumers: Vec<String>,
) -> (r: Hyperedge)
    ensures
        r@ == gate_of(name@, judge@, text::views(producers@), text::views(consumers@)),
{
    let mut members: Vec<String> = Vec::new();
    assert(text::views(members@) =~= Seq::<Seq<char>>::empty());
    push_new(&mut members, &producers);
    let mut one: Vec<String> = Vec::new();
    one.push(judge.clone());
    assert(text::views(one@) =~= seq![judge@]);
    push_new(&mut members, &one);
    push_new(&mut members, &consumers);
    Hyperedge { name, kind: HedgeKind::Gate, members, judge: Some(judge), producers, consumers }
}

/// An edge with members alone.
pub fn hedge_simple(name: String, kind: HedgeKind, members: Vec<String>) -> (r: Hyperedge)
    ensures
        r@ == simple_of(name@, kind, text::views(members@)),
{
    let r = Hyperedge {
        name,
        kind,
        members,
        judge: None,
        producers: Vec::new(),
        consumers: Vec::new(),
    };
    assert(r@.producers =~= Seq::<Seq<char>>::empty());
    assert(r@.consumers =~= Seq::<Seq<char>>::empty());
    r
}

/// An edge, or what is wrong, as values.
pub open spec fn hedge_view(r: Result<Hyperedge, String>) -> Result<GHedge, Seq<char>> {
    match r {
        Ok(v) => Ok(v@),
        Err(e) => Err(e@),
    }
}

/// Adds all of `more` at the end.
fn push_all(ms: &mut Vec<String>, more: &Vec<String>)
    ensures
        text::views(final(ms)@) == text::views(old(ms)@) + text::views(more@),
{
    let ghost m0 = text::views(ms@);
    let ghost mv = text::views(more@);
    let mut i: usize = 0;
    assert(m0 + mv.take(0) =~= m0);
    while i < more.len()
        invariant
            i <= more@.len(),
            mv == text::views(more@),
            text::views(ms@) == m0 + mv.take(i as int),
        decreases more@.len() - i,
    {
        let ghost before = ms@;
        ms.push(more[i].clone());
        assert(text::views(ms@) =~= text::views(before).push(mv[i as int]));
        assert(m0 + mv.take(i + 1) =~= (m0 + mv.take(i as int)).push(mv[i as int]));
        i += 1;
    }
    assert(mv.take(i as int) =~= mv);
}

/// The edge of a directive.
pub fn parse_hedge(args: &str) -> (r: Result<Hyperedge, String>)
    ensures
        hedge_view(r) == hedge_result(args@),
{
    let name = match extract_first_quoted(args) {
        Some(n) => n,
        None => {
            return Err(".hedge(\"name\", kind=..., …) needs a name".to_owned());
        },
    };
    let rest = skip_first_quoted(args);
    let ps = split_top_commas(rest.as_str());
    let ghost pv = text::views(ps@);
    let mut kind = HedgeKind::Chain;
    let mut members: Vec<String> = Vec::new();
    let mut judge: Option<String> = None;
    let mut producers: Vec<String> = Vec::new();
    let mut consumers: Vec<String> = Vec::new();
    let mut i: usize = 0;
    assert(text::views(members@) =~= Seq::<Seq<char>>::empty());
    assert(text::views(producers@) =~= Seq::<Seq<char>>::empty());
    assert(text::views(consumers@) =~= Seq::<Seq<char>>::empty());
    let ghost start = ports_from(
        GPorts {
            kind,
            members: text::views(members@),
            judge: None,
            producers: text::views(producers@),
            consumers: text::views(consumers@),
        },
        pv,
        0,
    );
    while i < ps.len()
        invariant
            i <= ps@.len(),
            pv == text::views(ps@),
            pv == top_pieces(behind_quoted(args@), 0, 0, 0, false),
            first_quoted(args@) == Some(name@),
            start == ports_from(
                GPorts {
                    kind,
                    members: text::views(members@),
                    judge: text::opt_view(judge),
                    producers: text::views(producers@),
                    consumers: text::views(consumers@),
                },
                pv,
                i as int,
            ),
            hedge_result(args@) == (match start {
                Ok(h) => hedge_of(name@, h),
                Err(e) => Err(e),
            }),
        decreases ps@.len() - i,
    {
        let p = text::trim(ps[i].as_str());
        if !p.as_str().is_empty() {
            match text::split_once(p.as_str(), '=') {
                Some((k, x)) => {
                    let key = text::trim(k.as_str());
                    let val = text::trim(x.as_str());
                    if text::same(key.as_str(), "kind") {
                        match HedgeKind::parse(val.as_str()) {
                            Ok(kd) => {
                                kind = kd;
                            },
                            Err(e) => {
                                return Err(e);
                            },
                        }
                    } else if text::same(key.as_str(), "judge") {
                        let t = text::trim_set(val.as_str(), "\"'");
                        judge = Some(strip_at(t.as_str()));
                    } else if text::same(key.as_str(), "producers") || text::same(
                        key.as_str(),
                        "producer",
                    ) {
                        let more = parse_name_list(val.as_str());
                        push_all(&mut producers, &more);
                    } else if text::same(key.as_str(), "consumers") || text::same(
                        key.as_str(),
                        "consumer",
                    ) {
                        let more = parse_name_list(val.as_str());
                        push_all(&mut consumers, &more);
                    } else {
                        let mut m = "unknown hedge key ".to_owned();
                        m.append(text::debug_quote(key.as_str()).as_str());
                        return Err(m);
                    }
                },
                None => {
                    let t = text::trim_set(p.as_str(), "\"'");
                    let b = strip_at(t.as_str());
                    let ghost before = members@;
                    let ghost bv = b@;
                    members.push(b);
                    assert(text::views(members@) =~= text::views(before).push(bv));
                },
            }
        }
        i += 1;
    }
    if kind == HedgeKind::Gate {
        match judge {
            Some(j) => {
                if consumers.len() > 0 {
                    if members.len() > 0 {
                        let mut m = "gate hedge ".to_owned();
                        m.append(text::debug_quote(name.as_str()).as_str());
                        m.append(
                            " must use ports (judge=/producers=/consumers=), not bare member list",
                        );
                        return Err(m);
                    }
                    return Ok(hedge_gate(name, j, producers, consumers));
                }
            },
            None => {},
        }
        let mut m = "gate hedge ".to_owned();
        m.append(text::debug_quote(name.as_str()).as_str());
        m.append(
            " needs judge=… and consumers=… (producers= optional; positional members rejected)",
        );
        Err(m)
    } else if judge.is_some() || producers.len() > 0 || consumers.len() > 0 {
        let mut m = "hedge ".to_owned();
        m.append(text::debug_quote(name.as_str()).as_str());
        m.append(" kind=");
        m.append(kind.as_str());
        m.append(" uses member list, not gate ports");
        Err(m)
    } else if members.len() == 0 {
        let mut m = "hedge ".to_owned();
        m.append(text::debug_quote(name.as_str()).as_str());
        m.append(" needs member vertices");
        Err(m)
    } else {
        Ok(hedge_simple(name, kind, members))
    }
}

} // verus!

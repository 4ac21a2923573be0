//! Reading the text of an implementation: the function it calls, the procs it
//! refers to, and its quoted arguments.

use crate::text;
use vstd::prelude::*;

verus! {

/// A character that an identifier may hold.
pub open spec fn word_char(c: char) -> bool {
    text::alnum(c) || c == '_'
}

/// A character that the name of a referenced proc may hold.
pub open spec fn ref_char(c: char) -> bool {
    text::alnum(c) || c == '_' || c == '-'
}

/// The function that a body calls: the identifier characters before its first
/// parenthesis, or `call` where there are none.
pub open spec fn body_op_spec(body: Seq<char>) -> Seq<char> {
    let b = text::trimmed(body);
    match text::find_char_spec(b, '(') {
        Some(k) => {
            let head = b.take(k).filter(|c: char| word_char(c));
            if head.len() > 0 {
                head
            } else {
                "call"@
            }
        },
        None => "call"@,
    }
}

/// The function that a body calls.
pub fn body_op(body: &str) -> (r: String)
    ensures
        r@ == body_op_spec(body@),
{
    let b = text::trim(body);
    let v = text::chars_of(b.as_str());
    match text::find_char_in(v.as_slice(), '(', 0) {
        Some(k) => {
            proof {
                text::lemma_find_char_from(b@, '(', 0);
            }
            let ghost keep = |c: char| word_char(c);
            let mut head = String::new();
            let mut i: usize = 0;
            assert(b@.take(0).filter(keep) =~= Seq::<char>::empty()) by {
                reveal(Seq::filter);
            }
            while i < k
                invariant
                    i <= k <= v@.len(),
                    v@ == b@,
                    keep == (|c: char| word_char(c)),
                    head@ == b@.take(i as int).filter(keep),
                decreases k - i,
            {
                let c = v[i];
                proof {
                    assert(b@.take(i + 1) =~= b@.take(i as int).push(c));
                    b@.take(i as int).lemma_filter_push(c, keep);
                    assert(keep(c) == word_char(c));
                }
                if text::is_alphanumeric(c) || c == '_' {
                    head.push(c);
                }
                i += 1;
            }
            if !head.as_str().is_empty() {
                return head;
            }
            "call".to_owned()
        },
        None => "call".to_owned(),
    }
}

/// The end of the run of name characters that starts at `i`.
pub open spec fn ref_end(s: Seq<char>, i: int) -> int
    decreases s.len() - i,
{
    if 0 <= i < s.len() && ref_char(s[i]) {
        ref_end(s, i + 1)
    } else {
        i
    }
}

/// A run of name characters ends no earlier than it starts and inside the text.
proof fn lemma_ref_end(s: Seq<char>, i: int)
    requires
        0 <= i <= s.len(),
    ensures
        i <= ref_end(s, i) <= s.len(),
        i < s.len() && ref_char(s[i]) ==> i < ref_end(s, i),
    decreases s.len() - i,
{
    if i < s.len() && ref_char(s[i]) {
        lemma_ref_end(s, i + 1);
    }
}

/// The names that stand behind an `@` from position `i` on, in order, repeats kept.
pub open spec fn refs_from(s: Seq<char>, i: int) -> Seq<Seq<char>>
    decreases s.len() - i,
{
    if i < 0 || i >= s.len() {
        Seq::empty()
    } else if s[i] == '@' && i + 1 < s.len() && text::alnum(s[i + 1]) && i + 1 < ref_end(s, i + 1)
        <= s.len() {
        seq![s.subrange(i + 1, ref_end(s, i + 1))] + refs_from(s, ref_end(s, i + 1))
    } else {
        refs_from(s, i + 1)
    }
}

/// The procs that a body refers to, in order, repeats kept.
pub open spec fn body_refs_spec(body: Seq<char>) -> Seq<Seq<char>> {
    refs_from(body, 0)
}

/// The procs that a body refers to, in order, repeats kept.
pub fn body_refs(body: &str) -> (r: Vec<String>)
    ensures
        text::views(r@) == body_refs_spec(body@),
{
    let v = text::chars_of(body);
    let mut out: Vec<String> = Vec::new();
    let mut i: usize = 0;
    assert(text::views(out@) + refs_from(body@, 0) =~= body_refs_spec(body@));
    while i < v.len()
        invariant
            i <= v@.len(),
            v@ == body@,
            text::views(out@) + refs_from(body@, i as int) == body_refs_spec(body@),
        decreases v@.len() - i,
    {
        if v[i] == '@' && i + 1 < v.len() && text::is_alphanumeric(v[i + 1]) {
            let start: usize = i + 1;
            let mut end: usize = start;
            while end < v.len() && (text::is_alphanumeric(v[end]) || v[end] == '_' || v[end] == '-')
                invariant
                    start <= end <= v@.len(),
                    v@ == body@,
                    ref_end(body@, start as int) == ref_end(body@, end as int),
                decreases v@.len() - end,
            {
                end += 1;
            }
            proof {
                lemma_ref_end(body@, start as int);
                assert(ref_end(body@, start as int) == end);
            }
            let ghost before = out@;
            out.push(text::string_of_range(v.as_slice(), start, end));
            proof {
                let name = body@.subrange(start as int, end as int);
                assert(text::views(out@) =~= text::views(before).push(name));
                assert(text::views(out@) + refs_from(body@, end as int) =~= text::views(before) + (seq![name]
                    + refs_from(body@, end as int)));
            }
            i = end;
        } else {
            i += 1;
        }
    }
    assert(text::views(out@) + refs_from(body@, i as int) =~= text::views(out@));
    out
}

/// The blanks that may stand round the `=` of an argument.
pub open spec fn arg_space(c: char) -> bool {
    0x09 <= c as int <= 0x0d || c as int == 0x20
}

/// The first position from `i` on that holds no blank.
pub open spec fn skip_arg_space(s: Seq<char>, i: int) -> int
    decreases s.len() - i,
{
    if 0 <= i < s.len() && arg_space(s[i]) {
        skip_arg_space(s, i + 1)
    } else {
        i
    }
}

/// The value of the first argument from position `from` on that is named `key`,
/// as a word of its own, and is given between quotes that close.
pub open spec fn quoted_arg_from(s: Seq<char>, key: Seq<char>, from: int) -> Option<Seq<char>>
    decreases s.len() - from,
{
    match text::find_from(s, key, from) {
        Some(k) if from <= k && key.len() > 0 && k + key.len() <= s.len() => {
            let end = k + key.len();
            let eq = skip_arg_space(s, end);
            let q = skip_arg_space(s, eq + 1);
            if k > 0 && word_char(s[k - 1]) {
                quoted_arg_from(s, key, end)
            } else if eq >= s.len() || s[eq] != '=' {
                quoted_arg_from(s, key, end)
            } else if q >= s.len() {
                None
            } else if s[q] != '"' && s[q] != '\'' {
                quoted_arg_from(s, key, end)
            } else {
                match text::find_char_from(s, s[q], q + 1) {
                    Some(close) => Some(s.subrange(q + 1, close)),
                    None => quoted_arg_from(s, key, end),
                }
            }
        },
        _ => None,
    }
}

/// A blank.
fn is_arg_space(c: char) -> (r: bool)
    ensures
        r == arg_space(c),
{
    let n: u32 = c as u32;
    (0x09 <= n && n <= 0x0d) || n == 0x20
}

/// The first position from `i` on that holds no blank.
fn skip_blanks(v: &Vec<char>, i: usize) -> (r: usize)
    requires
        i <= v@.len(),
    ensures
        r == skip_arg_space(v@, i as int),
        i <= r <= v@.len(),
{
    let mut j: usize = i;
    while j < v.len() && is_arg_space(v[j])
        invariant
            i <= j <= v@.len(),
            skip_arg_space(v@, i as int) == skip_arg_space(v@, j as int),
        decreases v@.len() - j,
    {
        j += 1;
    }
    j
}

/// The value of the first argument of `body` that is named `key`, as a word of
/// its own, and is given between quotes that close.
pub fn extract_quoted_arg(body: &str, key: &str) -> (r: Option<String>)
    requires
        key@.len() > 0,
    ensures
        text::opt_view(r) == quoted_arg_from(body@, key@, 0),
{
    let v = text::chars_of(body);
    let p = text::chars_of(key);
    let mut from: usize = 0;
    let n: usize = v.len();
    loop
        invariant
            from <= n,
            n == v@.len(),
            v@ == body@,
            p@ == key@,
            key@.len() > 0,
            quoted_arg_from(body@, key@, 0) == quoted_arg_from(body@, key@, from as int),
        decreases n - from,
    {
        proof {
            text::lemma_find_from(body@, key@, from as int);
        }
        let k = match text::find_chars(v.as_slice(), p.as_slice(), from) {
            Some(k) => k,
            None => {
                return None;
            },
        };
        let end: usize = k + p.len();
        from = end;
        if k > 0 && (text::is_alphanumeric(v[k - 1]) || v[k - 1] == '_') {
            continue;
        }
        let eq = skip_blanks(&v, end);
        if eq >= n || v[eq] != '=' {
            continue;
        }
        let q = skip_blanks(&v, eq + 1);
        if q >= n {
            return None;
        }
        let quote = v[q];
        if quote != '"' && quote != '\'' {
            continue;
        }
        proof {
            text::lemma_find_char_from(body@, quote, q + 1);
        }
        match text::find_char_in(v.as_slice(), quote, q + 1) {
            Some(close) => {
                return Some(text::string_of_range(v.as_slice(), q + 1, close));
            },
            None => {},
        }
    }
}

} // verus!

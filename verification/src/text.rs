//! Text as a sequence of characters: the searching, cutting and joining
//! primitives that every parser and renderer of the crate is built from.
//!
//! Positions are character positions throughout, never byte offsets.

use vstd::prelude::*;

verus! {

// ── Trusted: functions of std that vstd leaves open ──

/// `String::push` appends one character and changes nothing else.
pub assume_specification[ String::push ](s: &mut String, c: char)
    ensures
        final(s)@ == old(s)@.push(c),
;

/// A text of ASCII characters.
pub open spec fn ascii(s: Seq<char>) -> bool {
    forall|i: int| 0 <= i < s.len() ==> (#[trigger] s[i]) as int <= 0x7f
}

/// What `str::to_lowercase` makes of a text: Unicode's full, context-sensitive
/// lower-casing.
pub uninterp spec fn lowered(s: Seq<char>) -> Seq<char>;

/// A text in lower case: of an ASCII text the capitals get their small letters.
pub open spec fn lower(s: Seq<char>) -> Seq<char> {
    if ascii(s) {
        lower_ascii_spec(s)
    } else {
        lowered(s)
    }
}

/// Wraps `str::to_lowercase`. In an ASCII text the capitals get their small
/// letters and nothing else changes. For any other text the result is a function
/// of the text alone and is named `lowered`; nothing is claimed of the Unicode
/// tables behind it.
#[verifier::external_body]
pub(crate) fn lowercase(s: &str) -> (r: String)
    ensures
        r@ == (if ascii(s@) {
            lower_ascii_spec(s@)
        } else {
            lowered(s@)
        }),
{
    s.to_lowercase()
}

/// Whether Unicode counts a character as a letter or a number.
pub uninterp spec fn alphanumeric(c: char) -> bool;

/// An ASCII letter or digit.
pub open spec fn ascii_alnum(c: char) -> bool {
    ('0' as int <= c as int <= '9' as int) || ('A' as int <= c as int <= 'Z' as int) || ('a' as int
        <= c as int <= 'z' as int)
}

/// A letter or a number: of the ASCII characters these are the letters and the
/// digits.
pub open spec fn alnum(c: char) -> bool {
    if c as int <= 0x7f {
        ascii_alnum(c)
    } else {
        alphanumeric(c)
    }
}

/// Wraps `char::is_alphanumeric`. Of the ASCII characters it holds of the letters
/// and the digits. For any other character the result is a function of the
/// character alone and is named `alphanumeric`.
#[verifier::external_body]
pub(crate) fn is_alphanumeric(c: char) -> (r: bool)
    ensures
        r == (if c as int <= 0x7f {
            ascii_alnum(c)
        } else {
            alphanumeric(c)
        }),
{
    c.is_alphanumeric()
}

/// How `Debug` prints a text: between double quotes, with escapes.
pub uninterp spec fn debug_quoted(s: Seq<char>) -> Seq<char>;

/// Wraps the `{:?}` rendering of a `str`. The result is a function of the text
/// alone and is named `debug_quoted`.
#[verifier::external_body]
pub(crate) fn debug_quote(s: &str) -> (r: String)
    ensures
        r@ == debug_quoted(s@),
{
    format!("{:?}", s)
}

// ── Views ──

/// The texts that a sequence of strings holds.
pub open spec fn views(v: Seq<String>) -> Seq<Seq<char>> {
    v.map_values(|x: String| x@)
}

/// A machine index as a mathematical one.
pub open spec fn opt_int(o: Option<usize>) -> Option<int> {
    match o {
        Some(k) => Some(k as int),
        None => None,
    }
}

/// The text that an optional string holds.
pub open spec fn opt_view(o: Option<String>) -> Option<Seq<char>> {
    match o {
        Some(k) => Some(k@),
        None => None,
    }
}

// ── Searching ──

/// `p` stands in `s` at position `i`.
pub open spec fn occurs_at(s: Seq<char>, p: Seq<char>, i: int) -> bool {
    0 <= i && i + p.len() <= s.len() && s.subrange(i, i + p.len()) == p
}

/// `p` stands somewhere in `s`.
pub open spec fn has(s: Seq<char>, p: Seq<char>) -> bool {
    exists|i: int| occurs_at(s, p, i)
}

/// The first position from `i` on at which `p` stands in `s`.
pub open spec fn find_from(s: Seq<char>, p: Seq<char>, i: int) -> Option<int>
    decreases s.len() + 1 - i,
{
    if i + p.len() > s.len() {
        None
    } else if occurs_at(s, p, i) {
        Some(i)
    } else {
        find_from(s, p, i + 1)
    }
}

/// The first position at which `p` stands in `s`.
pub open spec fn find_str_spec(s: Seq<char>, p: Seq<char>) -> Option<int> {
    find_from(s, p, 0)
}

/// The first position from `i` on that holds `c`.
pub open spec fn find_char_from(s: Seq<char>, c: char, i: int) -> Option<int>
    decreases s.len() - i,
{
    if i >= s.len() {
        None
    } else if s[i] == c {
        Some(i)
    } else {
        find_char_from(s, c, i + 1)
    }
}

/// The first position of `c` in `s`.
pub open spec fn find_char_spec(s: Seq<char>, c: char) -> Option<int> {
    find_char_from(s, c, 0)
}

/// The last position of `c` before `n`.
pub open spec fn rfind_char_before(s: Seq<char>, c: char, n: int) -> Option<int>
    decreases n,
{
    if n <= 0 {
        None
    } else if s[n - 1] == c {
        Some(n - 1)
    } else {
        rfind_char_before(s, c, n - 1)
    }
}

/// The last position of `c` in `s`.
pub open spec fn rfind_char_spec(s: Seq<char>, c: char) -> Option<int> {
    rfind_char_before(s, c, s.len() as int)
}

/// What `find_from` answers, in first-order terms.
pub proof fn lemma_find_from(s: Seq<char>, p: Seq<char>, i: int)
    requires
        0 <= i,
    ensures
        match find_from(s, p, i) {
            Some(k) => i <= k && occurs_at(s, p, k) && forall|j: int|
                i <= j < k ==> !#[trigger] occurs_at(s, p, j),
            None => forall|j: int| i <= j ==> !#[trigger] occurs_at(s, p, j),
        },
    decreases s.len() + 1 - i,
{
    if i + p.len() <= s.len() && !occurs_at(s, p, i) {
        lemma_find_from(s, p, i + 1);
    }
}

/// A text holds a part exactly where the search finds it.
pub proof fn lemma_has_iff_found(s: Seq<char>, p: Seq<char>)
    ensures
        has(s, p) <==> find_str_spec(s, p) is Some,
{
    lemma_find_from(s, p, 0);
}

/// What `find_char_from` answers, in first-order terms.
pub proof fn lemma_find_char_from(s: Seq<char>, c: char, i: int)
    requires
        0 <= i,
    ensures
        match find_char_from(s, c, i) {
            Some(k) => i <= k < s.len() && s[k] == c && forall|j: int|
                i <= j < k ==> s[j] != c,
            None => forall|j: int| i <= j < s.len() ==> s[j] != c,
        },
    decreases s.len() - i,
{
    if i < s.len() && s[i] != c {
        lemma_find_char_from(s, c, i + 1);
    }
}

/// A position that holds `c` with no `c` before it is what the search finds.
pub proof fn lemma_find_char_is(s: Seq<char>, c: char, i: int, k: int)
    requires
        0 <= i <= k < s.len(),
        s[k] == c,
        forall|j: int| i <= j < k ==> s[j] != c,
    ensures
        find_char_from(s, c, i) == Some(k),
    decreases k - i,
{
    if i < k {
        lemma_find_char_is(s, c, i + 1, k);
    }
}

/// A text without `c` finds none.
pub proof fn lemma_find_char_none(s: Seq<char>, c: char, i: int)
    requires
        0 <= i,
        forall|j: int| i <= j < s.len() ==> s[j] != c,
    ensures
        find_char_from(s, c, i) is None,
    decreases s.len() - i,
{
    if i < s.len() {
        lemma_find_char_none(s, c, i + 1);
    }
}

/// What `rfind_char_before` answers, in first-order terms.
pub proof fn lemma_rfind_char(s: Seq<char>, c: char, n: int)
    requires
        n <= s.len(),
    ensures
        match rfind_char_before(s, c, n) {
            Some(k) => 0 <= k < n && s[k] == c && forall|j: int| k < j < n ==> s[j] != c,
            None => forall|j: int| 0 <= j < n ==> s[j] != c,
        },
    decreases n,
{
    if n > 0 && s[n - 1] != c {
        lemma_rfind_char(s, c, n - 1);
    }
}

// ── White space ──

/// Unicode's `White_Space` property, as `char::is_whitespace` has it.
pub open spec fn is_space(c: char) -> bool {
    let n = c as u32;
    ||| 0x09 <= n <= 0x0d
    ||| n == 0x20
    ||| n == 0x85
    ||| n == 0xa0
    ||| n == 0x1680
    ||| 0x2000 <= n <= 0x200a
    ||| n == 0x2028
    ||| n == 0x2029
    ||| n == 0x202f
    ||| n == 0x205f
    ||| n == 0x3000
}

/// `s` without its leading white space.
pub open spec fn trim_start_spec(s: Seq<char>) -> Seq<char>
    decreases s.len(),
{
    if s.len() > 0 && is_space(s[0]) {
        trim_start_spec(s.skip(1))
    } else {
        s
    }
}

/// `s` without its trailing white space.
pub open spec fn trim_end_spec(s: Seq<char>) -> Seq<char>
    decreases s.len(),
{
    if s.len() > 0 && is_space(s.last()) {
        trim_end_spec(s.drop_last())
    } else {
        s
    }
}

/// `s` without white space at either end.
pub open spec fn trimmed(s: Seq<char>) -> Seq<char> {
    trim_end_spec(trim_start_spec(s))
}

/// Every character is white space.
pub open spec fn blank(s: Seq<char>) -> bool {
    forall|i: int| 0 <= i < s.len() ==> is_space(s[i])
}

/// Trimming the end keeps a prefix and drops only white space.
pub proof fn lemma_trim_end(s: Seq<char>)
    ensures
        trim_end_spec(s).len() <= s.len(),
        trim_end_spec(s) == s.take(trim_end_spec(s).len() as int),
        trim_end_spec(s).len() > 0 ==> !is_space(trim_end_spec(s).last()),
        forall|i: int| trim_end_spec(s).len() <= i < s.len() ==> is_space(s[i]),
    decreases s.len(),
{
    if s.len() > 0 && is_space(s.last()) {
        lemma_trim_end(s.drop_last());
        let t = trim_end_spec(s);
        assert(s.drop_last().take(t.len() as int) =~= s.take(t.len() as int));
        assert forall|i: int| t.len() <= i < s.len() implies is_space(s[i]) by {
            if i < s.len() - 1 {
                assert(s.drop_last()[i] == s[i]);
            }
        }
    } else {
        assert(s.take(s.len() as int) =~= s);
    }
}

/// Trimming the start keeps a suffix and drops only white space.
pub proof fn lemma_trim_start(s: Seq<char>)
    ensures
        trim_start_spec(s).len() <= s.len(),
        trim_start_spec(s) == s.skip(s.len() - trim_start_spec(s).len()),
        trim_start_spec(s).len() > 0 ==> !is_space(trim_start_spec(s)[0]),
        forall|i: int| 0 <= i < s.len() - trim_start_spec(s).len() ==> is_space(s[i]),
    decreases s.len(),
{
    if s.len() > 0 && is_space(s[0]) {
        lemma_trim_start(s.skip(1));
        let t = trim_start_spec(s);
        assert(s.skip(1).skip(s.len() - 1 - t.len()) =~= s.skip(s.len() - t.len()));
        assert forall|i: int| 0 <= i < s.len() - t.len() implies is_space(s[i]) by {
            if i > 0 {
                assert(s.skip(1)[i - 1] == s[i]);
            }
        }
    } else {
        assert(s.skip(0) =~= s);
    }
}

/// Nothing is left of a text exactly when it is all white space.
pub proof fn lemma_trimmed_empty(s: Seq<char>)
    ensures
        trimmed(s).len() == 0 <==> blank(s),
{
    let a = trim_start_spec(s);
    lemma_trim_start(s);
    lemma_trim_end(a);
    if a.len() > 0 {
        assert(a[0] == s[s.len() - a.len()]);
        if trimmed(s).len() == 0 {
            assert(is_space(a[0]));
        }
        assert(!blank(s));
    } else {
        assert(blank(s));
    }
}

/// Trimming a trimmed text changes nothing.
pub proof fn lemma_trimmed_idempotent(s: Seq<char>)
    ensures
        trimmed(trimmed(s)) == trimmed(s),
{
    let a = trim_start_spec(s);
    let t = trimmed(s);
    lemma_trim_start(s);
    lemma_trim_end(a);
    if t.len() > 0 {
        assert(t[0] == a[0]);
    }
    assert(trim_start_spec(t) == t);
    assert(trim_end_spec(t) == t);
}

// ── Cutting ──

/// The pieces of `s` between the occurrences of `c`.
pub open spec fn split_char_spec(s: Seq<char>, c: char) -> Seq<Seq<char>>
    decreases s.len(),
{
    match find_char_spec(s, c) {
        Some(k) if 0 <= k < s.len() => seq![s.take(k)] + split_char_spec(s.skip(k + 1), c),
        _ => seq![s],
    }
}

/// The pieces of `s` between the non-overlapping occurrences of `p`, from the left.
pub open spec fn split_str_spec(s: Seq<char>, p: Seq<char>) -> Seq<Seq<char>>
    decreases s.len(),
{
    match find_str_spec(s, p) {
        Some(k) if p.len() > 0 && 0 <= k && k + p.len() <= s.len() => seq![s.take(k)]
            + split_str_spec(s.skip(k + p.len()), p),
        _ => seq![s],
    }
}

/// A line without the carriage return that precedes its line feed.
pub open spec fn strip_cr(s: Seq<char>) -> Seq<char> {
    if s.len() > 0 && s.last() == '\r' {
        s.drop_last()
    } else {
        s
    }
}

/// The lines of `s`: a line ends at a line feed, with or without a carriage
/// return before it; a text that ends in one has no empty last line.
pub open spec fn lines_spec(s: Seq<char>) -> Seq<Seq<char>>
    decreases s.len(),
{
    if s.len() == 0 {
        Seq::empty()
    } else {
        match find_char_spec(s, '\n') {
            Some(k) if 0 <= k < s.len() => seq![strip_cr(s.take(k))] + lines_spec(s.skip(k + 1)),
            _ => seq![s],
        }
    }
}

/// The maximal runs of `s` without white space.
pub open spec fn words_spec(s: Seq<char>) -> Seq<Seq<char>>
    decreases s.len(),
{
    let t = trim_start_spec(s);
    let n = word_len(t);
    if n <= 0 || n > t.len() || t.len() > s.len() {
        Seq::empty()
    } else {
        seq![t.take(n)] + words_spec(t.skip(n))
    }
}

/// The length of the run without white space that `s` starts with.
pub open spec fn word_len(s: Seq<char>) -> int
    decreases s.len(),
{
    if s.len() > 0 && !is_space(s[0]) {
        1 + word_len(s.skip(1))
    } else {
        0
    }
}

/// The pieces with `sep` between each two.
pub open spec fn join_spec(parts: Seq<Seq<char>>, sep: Seq<char>) -> Seq<char>
    decreases parts.len(),
{
    if parts.len() == 0 {
        Seq::empty()
    } else if parts.len() == 1 {
        parts[0]
    } else {
        join_spec(parts.drop_last(), sep) + sep + parts.last()
    }
}

/// `s` with each non-overlapping occurrence of `from`, from the left, replaced by `to`.
pub open spec fn replace_spec(s: Seq<char>, from: Seq<char>, to: Seq<char>) -> Seq<char> {
    join_spec(split_str_spec(s, from), to)
}

// ── Numbers ──

/// The digit `d` as a character.
pub open spec fn digit(d: int) -> char {
    (('0' as u32) + d) as char
}

/// `n` in decimal, without leading zeros.
pub open spec fn dec(n: nat) -> Seq<char>
    decreases n,
{
    if n < 10 {
        seq![digit(n as int)]
    } else {
        dec(n / 10).push(digit((n % 10) as int))
    }
}

/// The character is a decimal digit of ASCII.
pub open spec fn is_digit(c: char) -> bool {
    '0' as u32 <= c as u32 <= '9' as u32
}

/// Every character is a decimal digit.
pub open spec fn all_digits(s: Seq<char>) -> bool {
    forall|i: int| 0 <= i < s.len() ==> is_digit(s[i])
}

/// The number that a run of digits stands for.
pub open spec fn digits_value(s: Seq<char>) -> nat
    decreases s.len(),
{
    if s.len() == 0 {
        0
    } else {
        (digits_value(s.drop_last()) * 10 + (s.last() as u32 - '0' as u32)) as nat
    }
}

/// The part of a number's text that holds its digits: all but one leading `+`.
pub open spec fn unsigned_part(s: Seq<char>) -> Seq<char> {
    if s.len() > 1 && s[0] == '+' {
        s.skip(1)
    } else {
        s
    }
}

/// A number in decimal, with its sign.
pub open spec fn signed_dec(n: int) -> Seq<char> {
    if n < 0 {
        "-"@ + dec((-n) as nat)
    } else {
        dec(n as nat)
    }
}

/// A number in decimal, with its sign.
pub fn signed_decimal(n: i64) -> (r: String)
    ensures
        r@ == signed_dec(n as int),
{
    if n < 0 {
        let mut s = "-".to_owned();
        s.append(decimal((-(n as i128)) as u128).as_str());
        s
    } else {
        decimal(n as u128)
    }
}

/// The unsigned number not above `max` that `s` stands for.
pub open spec fn unsigned_spec(s: Seq<char>, max: nat) -> Option<nat> {
    let d = unsigned_part(s);
    if d.len() > 0 && all_digits(d) && digits_value(d) <= max {
        Some(digits_value(d))
    } else {
        None
    }
}

// ── Executable primitives ──

/// The characters of a text.
pub fn chars_of(s: &str) -> (r: Vec<char>)
    ensures
        r@ == s@,
{
    let mut out: Vec<char> = Vec::new();
    for c in it: s.chars()
        invariant
            it.seq() == s@,
            out@ == s@.take(it.index() as int),
    {
        out.push(c);
    }
    out
}

/// The text made of `v[a..b]`.
pub fn string_of_range(v: &[char], a: usize, b: usize) -> (r: String)
    requires
        a <= b <= v@.len(),
    ensures
        r@ == v@.subrange(a as int, b as int),
{
    let mut out = String::new();
    let mut i: usize = a;
    while i < b
        invariant
            a <= i <= b <= v@.len(),
            out@ == v@.subrange(a as int, i as int),
        decreases b - i,
    {
        out.push(v[i]);
        i += 1;
        assert(v@.subrange(a as int, i as int) =~= v@.subrange(a as int, i - 1).push(v@[i - 1]));
    }
    out
}

/// The text made of all of `v`.
pub fn string_of(v: &[char]) -> (r: String)
    ensures
        r@ == v@,
{
    let r = string_of_range(v, 0, v.len());
    assert(v@.subrange(0, v@.len() as int) =~= v@);
    r
}

/// The characters of `s` from position `a` up to `b`.
pub fn slice(s: &str, a: usize, b: usize) -> (r: String)
    requires
        a <= b <= s@.len(),
    ensures
        r@ == s@.subrange(a as int, b as int),
{
    s.substring_char(a, b).to_owned()
}

/// The two texts hold the same characters.
pub fn same(a: &str, b: &str) -> (r: bool)
    ensures
        r == (a@ == b@),
{
    a.to_owned() == b.to_owned()
}

/// `p` stands in `s` at `i`.
fn occurs(s: &[char], p: &[char], i: usize) -> (r: bool)
    requires
        i + p@.len() <= s@.len(),
    ensures
        r == occurs_at(s@, p@, i as int),
{
    let n: usize = s.len();
    let mut j: usize = 0;
    while j < p.len()
        invariant
            j <= p@.len(),
            n == s@.len(),
            i + p@.len() <= n,
            forall|k: int| 0 <= k < j ==> s@[i + k] == p@[k],
        decreases p@.len() - j,
    {
        if s[i + j] != p[j] {
            proof {
                assert(s@.subrange(i as int, i + p@.len())[j as int] == s@[i + j]);
            }
            return false;
        }
        j += 1;
    }
    assert(s@.subrange(i as int, i + p@.len()) =~= p@);
    true
}

/// The first position from `start` on at which `p` stands in `s`.
pub fn find_chars(s: &[char], p: &[char], start: usize) -> (r: Option<usize>)
    requires
        start <= s@.len(),
    ensures
        opt_int(r) == find_from(s@, p@, start as int),
{
    let mut i: usize = start;
    while p.len() <= s.len() - i
        invariant
            start <= i <= s@.len(),
            find_from(s@, p@, start as int) == find_from(s@, p@, i as int),
        decreases s@.len() - i,
    {
        if occurs(s, p, i) {
            return Some(i);
        }
        proof {
            if p@.len() == 0 {
                assert(s@.subrange(i as int, i as int) =~= p@);
            }
        }
        i += 1;
    }
    None
}

/// The first position at which `p` stands in `s`.
pub fn find_str(s: &str, p: &str) -> (r: Option<usize>)
    ensures
        opt_int(r) == find_str_spec(s@, p@),
{
    let a = chars_of(s);
    let b = chars_of(p);
    find_chars(a.as_slice(), b.as_slice(), 0)
}

/// `p` stands somewhere in `s`.
pub fn contains(s: &str, p: &str) -> (r: bool)
    ensures
        r == has(s@, p@),
{
    proof {
        lemma_has_iff_found(s@, p@);
    }
    find_str(s, p).is_some()
}

/// The first position of `c` in `s` from `start` on.
pub fn find_char_in(s: &[char], c: char, start: usize) -> (r: Option<usize>)
    requires
        start <= s@.len(),
    ensures
        opt_int(r) == find_char_from(s@, c, start as int),
{
    let mut i: usize = start;
    while i < s.len()
        invariant
            start <= i <= s@.len(),
            find_char_from(s@, c, start as int) == find_char_from(s@, c, i as int),
        decreases s@.len() - i,
    {
        if s[i] == c {
            return Some(i);
        }
        i += 1;
    }
    None
}

/// The first position of `c` in `s`.
pub fn find_char(s: &str, c: char) -> (r: Option<usize>)
    ensures
        opt_int(r) == find_char_spec(s@, c),
{
    let a = chars_of(s);
    find_char_in(a.as_slice(), c, 0)
}

/// The last position of `c` in `s`.
pub fn rfind_char(s: &str, c: char) -> (r: Option<usize>)
    ensures
        opt_int(r) == rfind_char_spec(s@, c),
{
    let a = chars_of(s);
    let mut n: usize = a.len();
    while n > 0
        invariant
            n <= a@.len(),
            a@ == s@,
            rfind_char_spec(s@, c) == rfind_char_before(s@, c, n as int),
        decreases n,
    {
        if a[n - 1] == c {
            return Some(n - 1);
        }
        n -= 1;
    }
    None
}

/// `s` starts with `p`.
pub fn starts_with(s: &str, p: &str) -> (r: bool)
    ensures
        r == p@.is_prefix_of(s@),
{
    let a = chars_of(s);
    let b = chars_of(p);
    if b.len() > a.len() {
        return false;
    }
    let r = occurs(a.as_slice(), b.as_slice(), 0);
    assert(s@.subrange(0, p@.len() as int) == s@.subrange(0, 0 + p@.len() as int));
    r
}

/// `s` ends with `p`.
pub fn ends_with(s: &str, p: &str) -> (r: bool)
    ensures
        r == p@.is_suffix_of(s@),
{
    let a = chars_of(s);
    let b = chars_of(p);
    if b.len() > a.len() {
        return false;
    }
    let k: usize = a.len() - b.len();
    let r = occurs(a.as_slice(), b.as_slice(), k);
    assert(k + p@.len() == s@.len());
    r
}

/// `s` starts with the character `c`.
pub fn starts_with_char(s: &str, c: char) -> (r: bool)
    ensures
        r == (s@.len() > 0 && s@[0] == c),
{
    s.unicode_len() > 0 && s.get_char(0) == c
}

/// `char::is_whitespace`.
pub fn is_whitespace(c: char) -> (r: bool)
    ensures
        r == is_space(c),
{
    let n: u32 = c as u32;
    (0x09 <= n && n <= 0x0d) || n == 0x20 || n == 0x85 || n == 0xa0 || n == 0x1680 || (0x2000 <= n
        && n <= 0x200a) || n == 0x2028 || n == 0x2029 || n == 0x202f || n == 0x205f || n == 0x3000
}

/// `s` without its leading white space.
pub fn trim_start(s: &str) -> (r: String)
    ensures
        r@ == trim_start_spec(s@),
{
    let a = chars_of(s);
    let mut i: usize = 0;
    assert(s@.skip(0) =~= s@);
    while i < a.len() && is_whitespace(a[i])
        invariant
            i <= a@.len(),
            a@ == s@,
            trim_start_spec(s@) == trim_start_spec(s@.skip(i as int)),
        decreases a@.len() - i,
    {
        assert(s@.skip(i as int).skip(1) =~= s@.skip(i + 1));
        i += 1;
    }
    assert(s@.skip(i as int) =~= s@.subrange(i as int, s@.len() as int));
    string_of_range(a.as_slice(), i, a.len())
}

/// `s` without white space at either end.
pub fn trim(s: &str) -> (r: String)
    ensures
        r@ == trimmed(s@),
{
    let a = chars_of(s);
    let mut i: usize = 0;
    assert(s@.skip(0) =~= s@);
    while i < a.len() && is_whitespace(a[i])
        invariant
            i <= a@.len(),
            a@ == s@,
            trim_start_spec(s@) == trim_start_spec(s@.skip(i as int)),
        decreases a@.len() - i,
    {
        assert(s@.skip(i as int).skip(1) =~= s@.skip(i + 1));
        i += 1;
    }
    let ghost t = trim_start_spec(s@);
    assert(t == s@.skip(i as int));
    let mut n: usize = a.len();
    assert(s@.subrange(i as int, n as int) =~= t);
    while n > i && is_whitespace(a[n - 1])
        invariant
            i <= n <= a@.len(),
            a@ == s@,
            trim_end_spec(t) == trim_end_spec(s@.subrange(i as int, n as int)),
        decreases n,
    {
        assert(s@.subrange(i as int, n as int).drop_last() =~= s@.subrange(i as int, n - 1));
        n -= 1;
    }
    string_of_range(a.as_slice(), i, n)
}

/// The text is all white space.
pub fn is_blank(s: &str) -> (r: bool)
    ensures
        r == (trimmed(s@).len() == 0),
        r == blank(s@),
{
    proof {
        lemma_trimmed_empty(s@);
    }
    let t = trim(s);
    t.as_str().is_empty()
}

/// The pieces of `s` between the occurrences of `c`.
pub fn split_char(s: &str, c: char) -> (r: Vec<String>)
    ensures
        views(r@) == split_char_spec(s@, c),
{
    let a = chars_of(s);
    let mut out: Vec<String> = Vec::new();
    let mut from: usize = 0;
    let mut i: usize = 0;
    assert(s@.skip(0) =~= s@);
    while i < a.len()
        invariant
            from <= i <= a@.len(),
            a@ == s@,
            forall|j: int| from <= j < i ==> s@[j] != c,
            split_char_spec(s@, c) == views(out@) + split_char_spec(s@.skip(from as int), c),
        decreases a@.len() - i,
    {
        if a[i] == c {
            let ghost rest = s@.skip(from as int);
            proof {
                lemma_find_char_is(rest, c, 0, i - from);
                assert(rest.take(i - from) =~= s@.subrange(from as int, i as int));
                assert(rest.skip(i - from + 1) =~= s@.skip(i + 1));
            }
            let ghost before = out@;
            out.push(string_of_range(a.as_slice(), from, i));
            proof {
                assert(views(out@) =~= views(before).push(rest.take(i - from)));
                assert(split_char_spec(s@, c) =~= views(out@) + split_char_spec(s@.skip(i + 1), c));
            }
            from = i + 1;
        }
        i += 1;
    }
    let ghost rest = s@.skip(from as int);
    proof {
        lemma_find_char_none(rest, c, 0);
        assert(rest =~= s@.subrange(from as int, s@.len() as int));
    }
    let ghost before = out@;
    out.push(string_of_range(a.as_slice(), from, a.len()));
    proof {
        assert(views(out@) =~= views(before) + seq![rest]);
    }
    out
}

/// The pieces of `s` between the non-overlapping occurrences of `p`, from the left.
pub fn split_str(s: &str, p: &str) -> (r: Vec<String>)
    requires
        p@.len() > 0,
    ensures
        views(r@) == split_str_spec(s@, p@),
{
    let a = chars_of(s);
    let b = chars_of(p);
    let mut out: Vec<String> = Vec::new();
    let mut from: usize = 0;
    assert(s@.skip(0) =~= s@);
    let n: usize = a.len();
    loop
        invariant
            from <= n,
            n == a@.len(),
            a@ == s@,
            b@ == p@,
            p@.len() > 0,
            split_str_spec(s@, p@) == views(out@) + split_str_spec(s@.skip(from as int), p@),
        decreases a@.len() - from,
    {
        let ghost rest = s@.skip(from as int);
        match find_chars(a.as_slice(), b.as_slice(), from) {
            Some(k) => {
                proof {
                    lemma_find_from(s@, p@, from as int);
                    lemma_find_shift(s@, p@, from as int, from as int);
                    assert(rest.take(k - from) =~= s@.subrange(from as int, k as int));
                    assert(rest.skip(k - from + p@.len()) =~= s@.skip(k + p@.len()));
                }
                let ghost before = out@;
                out.push(string_of_range(a.as_slice(), from, k));
                proof {
                    assert(views(out@) =~= views(before).push(rest.take(k - from)));
                    assert(split_str_spec(s@, p@) =~= views(out@) + split_str_spec(
                        s@.skip(k + p@.len()),
                        p@,
                    ));
                }
                from = k + b.len();
            },
            None => {
                proof {
                    lemma_find_shift(s@, p@, from as int, from as int);
                    assert(rest =~= s@.subrange(from as int, s@.len() as int));
                }
                let ghost before = out@;
                out.push(string_of_range(a.as_slice(), from, a.len()));
                proof {
                    assert(views(out@) =~= views(before) + seq![rest]);
                }
                return out;
            },
        }
    }
}

/// Searching a suffix of `s` is searching `s` from where the suffix starts.
pub proof fn lemma_find_shift(s: Seq<char>, p: Seq<char>, n: int, i: int)
    requires
        0 <= n <= i,
        n <= s.len(),
    ensures
        match find_from(s, p, i) {
            Some(k) => find_from(s.skip(n), p, i - n) == Some(k - n),
            None => find_from(s.skip(n), p, i - n) is None,
        },
    decreases s.len() + 1 - i,
{
    if i + p.len() <= s.len() {
        assert(s.skip(n).subrange(i - n, i - n + p.len()) =~= s.subrange(i, i + p.len()));
        if !occurs_at(s, p, i) {
            lemma_find_shift(s, p, n, i + 1);
        }
    }
}

/// The lines of `s`.
pub fn lines(s: &str) -> (r: Vec<String>)
    ensures
        views(r@) == lines_spec(s@),
{
    let a = chars_of(s);
    let mut out: Vec<String> = Vec::new();
    let mut from: usize = 0;
    let mut i: usize = 0;
    assert(s@.skip(0) =~= s@);
    while i < a.len()
        invariant
            from <= i <= a@.len(),
            a@ == s@,
            forall|j: int| from <= j < i ==> s@[j] != '\n',
            lines_spec(s@) == views(out@) + lines_spec(s@.skip(from as int)),
        decreases a@.len() - i,
    {
        if a[i] == '\n' {
            let ghost rest = s@.skip(from as int);
            let end: usize = if i > from && a[i - 1] == '\r' {
                i - 1
            } else {
                i
            };
            proof {
                lemma_find_char_is(rest, '\n', 0, i - from);
                assert(rest.take(i - from) =~= s@.subrange(from as int, i as int));
                assert(strip_cr(rest.take(i - from)) =~= s@.subrange(from as int, end as int));
                assert(rest.skip(i - from + 1) =~= s@.skip(i + 1));
            }
            let ghost before = out@;
            out.push(string_of_range(a.as_slice(), from, end));
            proof {
                assert(views(out@) =~= views(before).push(strip_cr(rest.take(i - from))));
                assert(lines_spec(s@) =~= views(out@) + lines_spec(s@.skip(i + 1)));
            }
            from = i + 1;
        }
        i += 1;
    }
    let ghost rest = s@.skip(from as int);
    if from < a.len() {
        proof {
            lemma_find_char_none(rest, '\n', 0);
            assert(rest =~= s@.subrange(from as int, s@.len() as int));
        }
        let ghost before = out@;
        out.push(string_of_range(a.as_slice(), from, a.len()));
        proof {
            assert(views(out@) =~= views(before) + seq![rest]);
        }
    } else {
        assert(views(out@) + lines_spec(rest) =~= views(out@));
    }
    out
}

/// The maximal runs of `s` without white space.
pub fn split_whitespace(s: &str) -> (r: Vec<String>)
    ensures
        views(r@) == words_spec(s@),
{
    let a = chars_of(s);
    let mut out: Vec<String> = Vec::new();
    let mut i: usize = 0;
    assert(s@.skip(0) =~= s@);
    loop
        invariant
            i <= a@.len(),
            a@ == s@,
            words_spec(s@) == views(out@) + words_spec(s@.skip(i as int)),
        decreases a@.len() - i,
    {
        let ghost rest = s@.skip(i as int);
        let mut b: usize = i;
        while b < a.len() && is_whitespace(a[b])
            invariant
                i <= b <= a@.len(),
                a@ == s@,
                trim_start_spec(rest) == trim_start_spec(s@.skip(b as int)),
            decreases a@.len() - b,
        {
            assert(s@.skip(b as int).skip(1) =~= s@.skip(b + 1));
            b += 1;
        }
        let ghost t = s@.skip(b as int);
        assert(trim_start_spec(rest) == t);
        let mut e: usize = b;
        while e < a.len() && !is_whitespace(a[e])
            invariant
                b <= e <= a@.len(),
                a@ == s@,
                word_len(t) == (e - b) + word_len(s@.skip(e as int)),
            decreases a@.len() - e,
        {
            assert(s@.skip(e as int).skip(1) =~= s@.skip(e + 1));
            e += 1;
        }
        assert(word_len(t) == e - b);
        if e == b {
            assert(views(out@) + words_spec(rest) =~= views(out@));
            return out;
        }
        let ghost before = out@;
        out.push(string_of_range(a.as_slice(), b, e));
        proof {
            assert(t.take(e - b) =~= s@.subrange(b as int, e as int));
            assert(t.skip(e - b) =~= s@.skip(e as int));
            assert(views(out@) =~= views(before).push(t.take(e - b)));
            assert(words_spec(s@) =~= views(out@) + words_spec(s@.skip(e as int)));
        }
        i = e;
    }
}

/// The pieces with `sep` between each two.
pub fn join(parts: &[String], sep: &str) -> (r: String)
    ensures
        r@ == join_spec(views(parts@), sep@),
{
    let mut out = String::new();
    let mut i: usize = 0;
    while i < parts.len()
        invariant
            i <= parts@.len(),
            out@ == join_spec(views(parts@).take(i as int), sep@),
        decreases parts@.len() - i,
    {
        proof {
            let p = views(parts@).take(i + 1);
            assert(p.drop_last() =~= views(parts@).take(i as int));
            assert(p.last() == parts@[i as int]@);
        }
        if i > 0 {
            out.append(sep);
        }
        out.append(parts[i].as_str());
        i += 1;
        proof {
            if i == 1 {
                assert(out@ =~= parts@[0]@);
            }
        }
    }
    assert(views(parts@).take(parts@.len() as int) =~= views(parts@));
    out
}

/// `s` with each occurrence of `from` replaced by `to`.
pub fn replace(s: &str, from: &str, to: &str) -> (r: String)
    requires
        from@.len() > 0,
    ensures
        r@ == replace_spec(s@, from@, to@),
{
    let parts = split_str(s, from);
    join(parts.as_slice(), to)
}

/// The digit `d` as a character.
fn digit_char(d: u128) -> (r: char)
    requires
        d < 10,
    ensures
        r == digit(d as int),
{
    if d == 0 {
        '0'
    } else if d == 1 {
        '1'
    } else if d == 2 {
        '2'
    } else if d == 3 {
        '3'
    } else if d == 4 {
        '4'
    } else if d == 5 {
        '5'
    } else if d == 6 {
        '6'
    } else if d == 7 {
        '7'
    } else if d == 8 {
        '8'
    } else {
        '9'
    }
}

/// `n` in decimal.
pub fn decimal(n: u128) -> (r: String)
    ensures
        r@ == dec(n as nat),
    decreases n,
{
    if n < 10 {
        let mut s = String::new();
        s.push(digit_char(n));
        assert(s@ =~= seq![digit(n as int)]);
        s
    } else {
        let mut s = decimal(n / 10);
        s.push(digit_char(n % 10));
        s
    }
}

/// The unsigned number not above `max` that `s` stands for: an optional `+`,
/// then decimal digits and nothing else.
pub fn parse_unsigned(s: &str, max: u64) -> (r: Option<u64>)
    ensures
        match r {
            Some(n) => unsigned_spec(s@, max as nat) == Some(n as nat),
            None => unsigned_spec(s@, max as nat) is None,
        },
{
    let a = chars_of(s);
    let start: usize = if a.len() > 1 && a[0] == '+' {
        1
    } else {
        0
    };
    let ghost d = unsigned_part(s@);
    assert(d =~= s@.skip(start as int));
    if a.len() == start {
        return None;
    }
    let mut n: u64 = 0;
    let mut i: usize = start;
    while i < a.len()
        invariant
            start <= i <= a@.len(),
            a@ == s@,
            d == s@.skip(start as int),
            d == unsigned_part(s@),
            n <= max,
            n == digits_value(d.take(i - start)),
            all_digits(d.take(i - start)),
        decreases a@.len() - i,
    {
        let c: u32 = a[i] as u32;
        let ghost k = i - start;
        proof {
            assert(d.take(k + 1).drop_last() =~= d.take(k));
            assert(d.take(k + 1).last() == s@[i as int]);
        }
        if c < 48 || c > 57 {
            assert(d[k] == s@[i as int]);
            assert(!all_digits(d));
            return None;
        }
        let v: u64 = (c - 48) as u64;
        proof {
            lemma_digits_value_grows(d, k + 1);
        }
        if v > max || n > max / 10 || n * 10 > max - v {
            assert(digits_value(d.take(k + 1)) > max);
            return None;
        }
        n = n * 10 + v;
        i += 1;
        let ghost grown = d.take(k + 1);
        assert forall|j: int| 0 <= j < grown.len() implies is_digit(#[trigger] grown[j]) by {
            if j < k {
                assert(d.take(k)[j] == grown[j]);
            }
        }
    }
    assert(d.take(d.len() as int) =~= d);
    Some(n)
}

/// The value of a run of digits is at least that of any prefix.
proof fn lemma_digits_value_grows(d: Seq<char>, k: int)
    requires
        0 <= k <= d.len(),
    ensures
        digits_value(d.take(k)) <= digits_value(d) || !all_digits(d),
    decreases d.len(),
{
    if k < d.len() {
        lemma_digits_value_grows(d.drop_last(), k);
        assert(d.drop_last().take(k) =~= d.take(k));
        if all_digits(d) {
            assert(all_digits(d.drop_last())) by {
                assert forall|j: int| 0 <= j < d.len() - 1 implies is_digit(d.drop_last()[j]) by {
                    assert(d[j] == d.drop_last()[j]);
                }
            }
            assert(is_digit(d[d.len() - 1]));
        }
    } else {
        assert(d.take(k) =~= d);
    }
}

// ── Character sets ──

/// `s` without its leading characters of `set`.
pub open spec fn front_spec(s: Seq<char>, set: Seq<char>) -> Seq<char>
    decreases s.len(),
{
    if s.len() > 0 && set.contains(s[0]) {
        front_spec(s.skip(1), set)
    } else {
        s
    }
}

/// `s` without its trailing characters of `set`.
pub open spec fn back_spec(s: Seq<char>, set: Seq<char>) -> Seq<char>
    decreases s.len(),
{
    if s.len() > 0 && set.contains(s.last()) {
        back_spec(s.drop_last(), set)
    } else {
        s
    }
}

/// `s` without characters of `set` at either end.
pub open spec fn trim_set_spec(s: Seq<char>, set: Seq<char>) -> Seq<char> {
    back_spec(front_spec(s, set), set)
}

/// The first position from `i` on that holds a character of `set`.
pub open spec fn find_set_from(s: Seq<char>, set: Seq<char>, i: int) -> Option<int>
    decreases s.len() - i,
{
    if i >= s.len() {
        None
    } else if set.contains(s[i]) {
        Some(i)
    } else {
        find_set_from(s, set, i + 1)
    }
}

/// The pieces of `s` between the characters of `set`.
pub open spec fn split_set_spec(s: Seq<char>, set: Seq<char>) -> Seq<Seq<char>>
    decreases s.len(),
{
    match find_set_from(s, set, 0) {
        Some(k) if 0 <= k < s.len() => seq![s.take(k)] + split_set_spec(s.skip(k + 1), set),
        _ => seq![s],
    }
}

/// Whether `c` is one of the characters of `set`.
fn in_set(set: &Vec<char>, c: char) -> (r: bool)
    ensures
        r == set@.contains(c),
{
    let mut i: usize = 0;
    while i < set.len()
        invariant
            i <= set@.len(),
            forall|k: int| 0 <= k < i ==> set@[k] != c,
        decreases set@.len() - i,
    {
        if set[i] == c {
            return true;
        }
        i += 1;
    }
    false
}

/// `s` without its leading characters of `set`.
pub fn trim_front(s: &str, set: &str) -> (r: String)
    ensures
        r@ == front_spec(s@, set@),
{
    let a = chars_of(s);
    let b = chars_of(set);
    let mut i: usize = 0;
    assert(s@.skip(0) =~= s@);
    while i < a.len() && in_set(&b, a[i])
        invariant
            i <= a@.len(),
            a@ == s@,
            b@ == set@,
            front_spec(s@, set@) == front_spec(s@.skip(i as int), set@),
        decreases a@.len() - i,
    {
        assert(s@.skip(i as int).skip(1) =~= s@.skip(i + 1));
        i += 1;
    }
    assert(s@.skip(i as int) =~= s@.subrange(i as int, s@.len() as int));
    string_of_range(a.as_slice(), i, a.len())
}

/// `s` without characters of `set` at either end.
pub fn trim_set(s: &str, set: &str) -> (r: String)
    ensures
        r@ == trim_set_spec(s@, set@),
{
    let f = trim_front(s, set);
    let a = chars_of(f.as_str());
    let b = chars_of(set);
    let mut n: usize = a.len();
    assert(f@.take(n as int) =~= f@);
    while n > 0 && in_set(&b, a[n - 1])
        invariant
            n <= a@.len(),
            a@ == f@,
            b@ == set@,
            back_spec(f@, set@) == back_spec(f@.take(n as int), set@),
        decreases n,
    {
        assert(f@.take(n as int).drop_last() =~= f@.take(n - 1));
        n -= 1;
    }
    assert(f@.take(n as int) =~= f@.subrange(0, n as int));
    string_of_range(a.as_slice(), 0, n)
}

proof fn lemma_find_set_is(s: Seq<char>, set: Seq<char>, i: int, k: int)
    requires
        0 <= i <= k < s.len(),
        set.contains(s[k]),
        forall|j: int| i <= j < k ==> !set.contains(s[j]),
    ensures
        find_set_from(s, set, i) == Some(k),
    decreases k - i,
{
    if i < k {
        lemma_find_set_is(s, set, i + 1, k);
    }
}

proof fn lemma_find_set_none(s: Seq<char>, set: Seq<char>, i: int)
    requires
        0 <= i,
        forall|j: int| i <= j < s.len() ==> !set.contains(s[j]),
    ensures
        find_set_from(s, set, i) is None,
    decreases s.len() - i,
{
    if i < s.len() {
        lemma_find_set_none(s, set, i + 1);
    }
}

/// The pieces of `s` between the characters of `set`.
pub fn split_set(s: &str, set: &str) -> (r: Vec<String>)
    ensures
        views(r@) == split_set_spec(s@, set@),
{
    let a = chars_of(s);
    let b = chars_of(set);
    let mut out: Vec<String> = Vec::new();
    let mut from: usize = 0;
    let mut i: usize = 0;
    assert(s@.skip(0) =~= s@);
    while i < a.len()
        invariant
            from <= i <= a@.len(),
            a@ == s@,
            b@ == set@,
            forall|j: int| from <= j < i ==> !set@.contains(s@[j]),
            split_set_spec(s@, set@) == views(out@) + split_set_spec(s@.skip(from as int), set@),
        decreases a@.len() - i,
    {
        if in_set(&b, a[i]) {
            let ghost rest = s@.skip(from as int);
            proof {
                lemma_find_set_is(rest, set@, 0, i - from);
                assert(rest.take(i - from) =~= s@.subrange(from as int, i as int));
                assert(rest.skip(i - from + 1) =~= s@.skip(i + 1));
            }
            let ghost before = out@;
            out.push(string_of_range(a.as_slice(), from, i));
            proof {
                assert(views(out@) =~= views(before).push(rest.take(i - from)));
                assert(split_set_spec(s@, set@) =~= views(out@) + split_set_spec(
                    s@.skip(i + 1),
                    set@,
                ));
            }
            from = i + 1;
        }
        i += 1;
    }
    let ghost rest = s@.skip(from as int);
    proof {
        lemma_find_set_none(rest, set@, 0);
        assert(rest =~= s@.subrange(from as int, s@.len() as int));
    }
    let ghost before = out@;
    out.push(string_of_range(a.as_slice(), from, a.len()));
    proof {
        assert(views(out@) =~= views(before) + seq![rest]);
    }
    out
}

// ── ASCII case ──

/// `c` in lower case, where it is an ASCII capital.
pub open spec fn lower_ascii(c: char) -> char {
    if 'A' as u32 <= c as u32 <= 'Z' as u32 {
        ((c as u32) + 32) as char
    } else {
        c
    }
}

/// The text with its ASCII capitals in lower case.
pub open spec fn lower_ascii_spec(s: Seq<char>) -> Seq<char> {
    s.map_values(|c: char| lower_ascii(c))
}

/// `char::to_ascii_lowercase`: the ASCII capitals get their small letters, any
/// other character stays.
pub assume_specification[ char::to_ascii_lowercase ](c: &char) -> (r: char)
    ensures
        r == lower_ascii(*c),
;

/// The text with its ASCII capitals in lower case.
pub fn ascii_lowercase(s: &str) -> (r: String)
    ensures
        r@ == lower_ascii_spec(s@),
{
    let a = chars_of(s);
    let mut out = String::new();
    let mut i: usize = 0;
    while i < a.len()
        invariant
            i <= a@.len(),
            a@ == s@,
            out@ == lower_ascii_spec(s@.take(i as int)),
        decreases a@.len() - i,
    {
        let c = a[i].to_ascii_lowercase();
        out.push(c);
        assert(lower_ascii_spec(s@.take(i + 1)) =~= lower_ascii_spec(s@.take(i as int)).push(c));
        i += 1;
    }
    assert(s@.take(i as int) =~= s@);
    out
}

// ── Prefixes and places ──

/// The first `n` characters, or all where there are fewer.
pub open spec fn cut_spec(s: Seq<char>, n: nat) -> Seq<char> {
    if s.len() <= n {
        s
    } else {
        s.take(n as int)
    }
}

/// The first `n` characters, or all where there are fewer.
pub fn cut(s: &str, n: usize) -> (r: String)
    ensures
        r@ == cut_spec(s@, n as nat),
{
    let a = chars_of(s);
    if a.len() <= n {
        s.to_owned()
    } else {
        assert(s@.take(n as int) =~= s@.subrange(0, n as int));
        string_of_range(a.as_slice(), 0, n)
    }
}

/// What follows the prefix `p`.
pub open spec fn after_prefix(s: Seq<char>, p: Seq<char>) -> Option<Seq<char>> {
    if p.is_prefix_of(s) {
        Some(s.skip(p.len() as int))
    } else {
        None
    }
}

/// What follows the prefix `p`.
pub fn strip_prefix(s: &str, p: &str) -> (r: Option<String>)
    ensures
        opt_view(r) == after_prefix(s@, p@),
{
    if starts_with(s, p) {
        let a = chars_of(s);
        let b = chars_of(p);
        assert(s@.skip(p@.len() as int) =~= s@.subrange(p@.len() as int, s@.len() as int));
        Some(string_of_range(a.as_slice(), b.len(), a.len()))
    } else {
        None
    }
}

/// The parts before and after the first `c`.
pub open spec fn split_once_spec(s: Seq<char>, c: char) -> Option<(Seq<char>, Seq<char>)> {
    match find_char_spec(s, c) {
        Some(k) => Some((s.take(k), s.skip(k + 1))),
        None => None,
    }
}

/// The parts before and after the first `c`.
pub fn split_once(s: &str, c: char) -> (r: Option<(String, String)>)
    ensures
        match r {
            Some((a, b)) => split_once_spec(s@, c) == Some((a@, b@)),
            None => split_once_spec(s@, c) is None,
        },
{
    let a = chars_of(s);
    match find_char_in(a.as_slice(), c, 0) {
        Some(k) => {
            proof {
                lemma_find_char_from(s@, c, 0);
                assert(s@.take(k as int) =~= s@.subrange(0, k as int));
                assert(s@.skip(k + 1) =~= s@.subrange(k + 1, s@.len() as int));
            }
            let n: usize = a.len();
            assert(k < n);
            Some((string_of_range(a.as_slice(), 0, k), string_of_range(a.as_slice(), k + 1, n)))
        },
        None => None,
    }
}

/// Whether a text is one of `all`.
pub fn is_one_of(x: &str, all: &Vec<String>) -> (r: bool)
    ensures
        r == views(all@).contains(x@),
{
    let ghost s = views(all@);
    let mut i: usize = 0;
    while i < all.len()
        invariant
            i <= all@.len(),
            s == views(all@),
            forall|k: int| 0 <= k < i ==> s[k] != x@,
        decreases all@.len() - i,
    {
        if same(all[i].as_str(), x) {
            assert(s[i as int] == x@);
            return true;
        }
        assert(s[i as int] == all@[i as int]@);
        i += 1;
    }
    false
}

/// The same texts once more.
pub fn copy_all(v: &Vec<String>) -> (r: Vec<String>)
    ensures
        views(r@) == views(v@),
{
    let mut out: Vec<String> = Vec::new();
    let mut i: usize = 0;
    while i < v.len()
        invariant
            i <= v@.len(),
            views(out@) == views(v@).take(i as int),
        decreases v@.len() - i,
    {
        let ghost before = out@;
        out.push(v[i].clone());
        assert(views(out@) =~= views(before).push(views(v@)[i as int]));
        i += 1;
        assert(views(v@).take(i as int) =~= views(v@).take(i - 1).push(views(v@)[i - 1]));
    }
    assert(views(v@).take(i as int) =~= views(v@));
    out
}

} // verus!

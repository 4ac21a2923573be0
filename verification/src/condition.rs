//! Conditions: a comparison of a parameter, a result or a field of a result
//! with a literal. A condition that cannot be read, and one about something
//! that is not there, does not hold.

use crate::ast;
use crate::ast::{GValue, Value};
use crate::dslresult;
use crate::order::TextMap;
use crate::text;
use vstd::prelude::*;

verus! {

// ── Decimal numbers ──

/// A decimal number: its sign, and the digits before and after the dot.
pub struct GDecimal {
    pub negative: bool,
    pub whole: Seq<char>,
    pub fraction: Seq<char>,
}

/// The number that a text stands for: digits, with a dot between digits and a
/// minus in front where there is one.
pub open spec fn decimal_of(s: Seq<char>) -> Option<GDecimal> {
    let negative = s.len() > 0 && s[0] == '-';
    let body = if negative {
        s.skip(1)
    } else {
        s
    };
    match text::split_once_spec(body, '.') {
        None => if body.len() > 0 && text::all_digits(body) {
            Some(GDecimal { negative, whole: body, fraction: Seq::empty() })
        } else {
            None
        },
        Some((w, f)) => if w.len() > 0 && f.len() > 0 && text::all_digits(w)
            && text::all_digits(f) {
            Some(GDecimal { negative, whole: w, fraction: f })
        } else {
            None
        },
    }
}

/// The first `n` digits of a fraction, filled up with zeros.
pub open spec fn filled(fraction: Seq<char>, n: nat) -> Seq<char> {
    Seq::new(
        n,
        |i: int|
            if i < fraction.len() {
                fraction[i]
            } else {
                '0'
            },
    )
}

/// A number without its sign, in units of the `places`-th place after the dot.
pub open spec fn magnitude(d: GDecimal, places: nat) -> nat {
    text::digits_value(d.whole + filled(d.fraction, places))
}

/// A number in units of the `places`-th place after the dot.
pub open spec fn scaled(d: GDecimal, places: nat) -> int {
    if d.negative {
        -magnitude(d, places)
    } else {
        magnitude(d, places) as int
    }
}

/// The places after the dot that either number has.
pub open spec fn places(a: GDecimal, b: GDecimal) -> nat {
    if a.fraction.len() < b.fraction.len() {
        b.fraction.len()
    } else {
        a.fraction.len()
    }
}

/// On which side of another number a number is.
#[derive(Debug, Clone, Copy, PartialEq, Eq, Structural)]
pub enum Side {
    Below,
    Same,
    Above,
}

/// On which side of `y` the number `x` is.
pub open spec fn side_of(x: int, y: int) -> Side {
    if x < y {
        Side::Below
    } else if x == y {
        Side::Same
    } else {
        Side::Above
    }
}

/// A decimal number: its sign, and the digits before and after the dot.
struct Decimal {
    negative: bool,
    whole: Vec<char>,
    fraction: Vec<char>,
}

impl Decimal {
    spec fn view(&self) -> GDecimal {
        GDecimal { negative: self.negative, whole: self.whole@, fraction: self.fraction@ }
    }

    spec fn wf(&self) -> bool {
        text::all_digits(self.whole@) && text::all_digits(self.fraction@)
    }
}

/// Whether there are only digits.
fn only_digits(v: &Vec<char>) -> (r: bool)
    ensures
        r == text::all_digits(v@),
{
    let mut i: usize = 0;
    while i < v.len()
        invariant
            i <= v@.len(),
            forall|k: int| 0 <= k < i ==> text::is_digit(#[trigger] v@[k]),
        decreases v@.len() - i,
    {
        let c = v[i];
        if !('0' as u32 <= c as u32 && c as u32 <= '9' as u32) {
            assert(!text::is_digit(v@[i as int]));
            return false;
        }
        i += 1;
    }
    true
}

/// The number that a text stands for.
fn read_decimal(s: &str) -> (r: Option<Decimal>)
    ensures
        match r {
            Some(d) => d.wf() && decimal_of(s@) == Some(d@),
            None => decimal_of(s@) is None,
        },
{
    let negative = text::starts_with_char(s, '-');
    let body = if negative {
        assert(s@.skip(1) =~= s@.subrange(1, s@.len() as int));
        text::slice(s, 1, s.unicode_len())
    } else {
        s.to_owned()
    };
    match text::split_once(body.as_str(), '.') {
        None => {
            let whole = text::chars_of(body.as_str());
            if whole.len() > 0 && only_digits(&whole) {
                let fraction: Vec<char> = Vec::new();
                assert(fraction@ =~= Seq::<char>::empty());
                Some(Decimal { negative, whole, fraction })
            } else {
                None
            }
        },
        Some((w, f)) => {
            let whole = text::chars_of(w.as_str());
            let fraction = text::chars_of(f.as_str());
            if whole.len() > 0 && fraction.len() > 0 && only_digits(&whole)
                && only_digits(&fraction) {
                Some(Decimal { negative, whole, fraction })
            } else {
                None
            }
        },
    }
}

/// The side after one more digit on each hand.
fn next_side(side: Side, d: u32, e: u32) -> (r: Side)
    ensures
        r == (if side == Side::Same {
            side_of(d as int, e as int)
        } else {
            side
        }),
{
    match side {
        Side::Same => if d < e {
            Side::Below
        } else if d == e {
            Side::Same
        } else {
            Side::Above
        },
        _ => side,
    }
}

/// One more digit on each hand decides where the digits before it did not.
proof fn lemma_next_side(x: int, y: int, d: int, e: int)
    requires
        0 <= d < 10,
        0 <= e < 10,
    ensures
        side_of(10 * x + d, 10 * y + e) == (if side_of(x, y) == Side::Same {
            side_of(d, e)
        } else {
            side_of(x, y)
        }),
{
}

/// One more digit.
proof fn lemma_one_more(s: Seq<char>, c: char)
    requires
        text::is_digit(c),
    ensures
        text::digits_value(s.push(c)) == 10 * text::digits_value(s) + (c as u32 - '0' as u32),
{
    assert(s.push(c).drop_last() =~= s);
}

/// A zero.
spec fn is_zero(c: char) -> bool {
    c as u32 == '0' as u32
}

/// Only zeros stand for nothing.
proof fn lemma_null(s: Seq<char>)
    requires
        text::all_digits(s),
    ensures
        (text::digits_value(s) == 0) == (forall|i: int| 0 <= i < s.len() ==> is_zero(#[trigger] s[i])),
    decreases s.len(),
{
    if s.len() > 0 {
        let t = s.drop_last();
        assert(text::all_digits(t));
        lemma_null(t);
        assert(s =~= t.push(s.last()));
        assert(text::is_digit(s[s.len() - 1]));
        lemma_one_more(t, s.last());
        if text::digits_value(s) == 0 {
            assert forall|i: int| 0 <= i < s.len() implies is_zero(#[trigger] s[i]) by {
                if i < t.len() {
                    assert(is_zero(t[i]));
                }
            }
        } else if forall|i: int| 0 <= i < s.len() ==> is_zero(#[trigger] s[i]) {
            assert forall|i: int| 0 <= i < t.len() implies is_zero(#[trigger] t[i]) by {
                assert(is_zero(s[i]));
            }
        }
    }
}

/// How many of `len` digits are among the first `j` of `n` places, where they
/// fill the last places.
spec fn reached(len: nat, n: nat, j: int) -> int {
    if j >= n - len {
        j - (n - len)
    } else {
        0
    }
}

/// The digit in the `j`-th of `n` places, where the digits fill the last places.
fn digit_in(v: &Vec<char>, n: usize, j: usize) -> (r: u32)
    requires
        v@.len() <= n,
        j < n,
        text::all_digits(v@),
    ensures
        0 <= r < 10,
        text::digits_value(v@.take(reached(v@.len(), n as nat, j + 1))) == 10
            * text::digits_value(v@.take(reached(v@.len(), n as nat, j as int))) + r,
{
    let free: usize = n - v.len();
    if j < free {
        assert(v@.take(0).len() == 0);
        0
    } else {
        let c = v[j - free];
        proof {
            let k = j - free;
            assert(text::is_digit(v@[k]));
            assert(v@.take(k + 1) =~= v@.take(k).push(c));
            lemma_one_more(v@.take(k), c);
        }
        c as u32 - '0' as u32
    }
}

/// The side of the whole parts.
fn compare_whole(a: &Vec<char>, b: &Vec<char>) -> (r: Side)
    requires
        text::all_digits(a@),
        text::all_digits(b@),
    ensures
        r == side_of(text::digits_value(a@) as int, text::digits_value(b@) as int),
{
    let n: usize = if a.len() < b.len() {
        b.len()
    } else {
        a.len()
    };
    let mut side = Side::Same;
    let mut j: usize = 0;
    assert(a@.take(0).len() == 0 && b@.take(0).len() == 0);
    while j < n
        invariant
            j <= n,
            a@.len() <= n,
            b@.len() <= n,
            text::all_digits(a@),
            text::all_digits(b@),
            side == side_of(
                text::digits_value(a@.take(reached(a@.len(), n as nat, j as int))) as int,
                text::digits_value(b@.take(reached(b@.len(), n as nat, j as int))) as int,
            ),
        decreases n - j,
    {
        let d: u32 = digit_in(a, n, j);
        let e: u32 = digit_in(b, n, j);
        proof {
            lemma_next_side(
                text::digits_value(a@.take(reached(a@.len(), n as nat, j as int))) as int,
                text::digits_value(b@.take(reached(b@.len(), n as nat, j as int))) as int,
                d as int,
                e as int,
            );
        }
        side = next_side(side, d, e);
        j += 1;
    }
    assert(a@.take(a@.len() as int) =~= a@);
    assert(b@.take(b@.len() as int) =~= b@);
    side
}

/// The `i`-th digit of a fraction, filled up with zeros.
fn fraction_digit(whole: &Vec<char>, v: &Vec<char>, i: usize) -> (r: u32)
    requires
        text::all_digits(v@),
    ensures
        0 <= r < 10,
        text::digits_value(whole@ + filled(v@, (i + 1) as nat)) == 10 * text::digits_value(
            whole@ + filled(v@, i as nat),
        ) + r,
{
    let c = if i < v.len() {
        v[i]
    } else {
        '0'
    };
    proof {
        if i < v@.len() {
            assert(text::is_digit(v@[i as int]));
        }
        assert(whole@ + filled(v@, (i + 1) as nat) =~= (whole@ + filled(v@, i as nat)).push(c));
        lemma_one_more(whole@ + filled(v@, i as nat), c);
    }
    c as u32 - '0' as u32
}

/// The side of the numbers without their signs.
fn compare_magnitudes(a: &Decimal, b: &Decimal) -> (r: Side)
    requires
        a.wf(),
        b.wf(),
    ensures
        r == side_of(
            magnitude(a@, places(a@, b@)) as int,
            magnitude(b@, places(a@, b@)) as int,
        ),
{
    let n: usize = if a.fraction.len() < b.fraction.len() {
        b.fraction.len()
    } else {
        a.fraction.len()
    };
    let mut side = compare_whole(&a.whole, &b.whole);
    let mut i: usize = 0;
    assert(a.whole@ + filled(a.fraction@, 0) =~= a.whole@);
    assert(b.whole@ + filled(b.fraction@, 0) =~= b.whole@);
    while i < n
        invariant
            i <= n,
            a.wf(),
            b.wf(),
            side == side_of(
                magnitude(a@, i as nat) as int,
                magnitude(b@, i as nat) as int,
            ),
        decreases n - i,
    {
        let d: u32 = fraction_digit(&a.whole, &a.fraction, i);
        let e: u32 = fraction_digit(&b.whole, &b.fraction, i);
        proof {
            lemma_next_side(
                magnitude(a@, i as nat) as int,
                magnitude(b@, i as nat) as int,
                d as int,
                e as int,
            );
        }
        side = next_side(side, d, e);
        i += 1;
    }
    side
}

/// Whether there are only zeros.
fn only_zeros(v: &Vec<char>) -> (r: bool)
    ensures
        r == (forall|i: int| 0 <= i < v@.len() ==> is_zero(#[trigger] v@[i])),
{
    let mut i: usize = 0;
    while i < v.len()
        invariant
            i <= v@.len(),
            forall|k: int| 0 <= k < i ==> is_zero(#[trigger] v@[k]),
        decreases v@.len() - i,
    {
        if v[i] as u32 != '0' as u32 {
            assert(!is_zero(v@[i as int]));
            return false;
        }
        i += 1;
    }
    true
}

/// Whether a number is zero.
fn is_null(d: &Decimal) -> (r: bool)
    requires
        d.wf(),
    ensures
        forall|n: nat| n >= d.fraction@.len() ==> r == (#[trigger] magnitude(d@, n) == 0),
{
    let r = only_zeros(&d.whole) && only_zeros(&d.fraction);
    proof {
        assert forall|n: nat| n >= d.fraction@.len() implies r == (#[trigger] magnitude(d@, n)
            == 0) by {
            let w = d.whole@;
            let f = filled(d.fraction@, n);
            let s = w + f;
            assert(text::all_digits(s)) by {
                assert forall|i: int| 0 <= i < s.len() implies text::is_digit(s[i]) by {
                    if i < w.len() {
                        assert(text::is_digit(w[i]));
                    } else if i - w.len() < d.fraction@.len() {
                        assert(text::is_digit(d.fraction@[i - w.len()]));
                    }
                }
            }
            lemma_null(s);
            if r {
                assert forall|i: int| 0 <= i < s.len() implies is_zero(#[trigger] s[i]) by {
                    if i < w.len() {
                        assert(is_zero(w[i]));
                    } else if i - w.len() < d.fraction@.len() {
                        assert(is_zero(d.fraction@[i - w.len()]));
                    }
                }
            } else if magnitude(d@, n) == 0 {
                assert forall|i: int| 0 <= i < w.len() implies is_zero(#[trigger] w[i]) by {
                    assert(is_zero(s[i]));
                }
                assert forall|i: int| 0 <= i < d.fraction@.len() implies is_zero(#[trigger] d.fraction@[i]) by {
                    assert(is_zero(s[w.len() + i]));
                }
            }
        }
    }
    r
}

/// The side of the numbers.
fn compare_decimals(a: &Decimal, b: &Decimal) -> (r: Side)
    requires
        a.wf(),
        b.wf(),
    ensures
        r == side_of(scaled(a@, places(a@, b@)), scaled(b@, places(a@, b@))),
{
    if a.negative != b.negative {
        let null = is_null(a) && is_null(b);
        assert(null == (magnitude(a@, places(a@, b@)) == 0 && magnitude(b@, places(a@, b@)) == 0));
        if null {
            Side::Same
        } else if a.negative {
            Side::Below
        } else {
            Side::Above
        }
    } else {
        let side = compare_magnitudes(a, b);
        if a.negative {
            match side {
                Side::Below => Side::Above,
                Side::Same => Side::Same,
                Side::Above => Side::Below,
            }
        } else {
            side
        }
    }
}

// ── Comparisons ──

/// A relation.
#[derive(Debug, Clone, Copy, PartialEq, Eq, Structural)]
pub enum Relation {
    Equal,
    Unequal,
    AtMost,
    AtLeast,
    Less,
    More,
}

/// The relation written at the `i`-th character.
pub open spec fn relation_at(s: Seq<char>, i: int) -> Option<Relation> {
    let double = i + 1 < s.len() && s[i + 1] == '=';
    if s[i] == '=' && double {
        Some(Relation::Equal)
    } else if s[i] == '!' && double {
        Some(Relation::Unequal)
    } else if s[i] == '<' {
        Some(
            if double {
                Relation::AtMost
            } else {
                Relation::Less
            },
        )
    } else if s[i] == '>' {
        Some(
            if double {
                Relation::AtLeast
            } else {
                Relation::More
            },
        )
    } else {
        None
    }
}

/// How many characters a relation is written with.
pub open spec fn width(r: Relation) -> int {
    if r == Relation::Less || r == Relation::More {
        1
    } else {
        2
    }
}

/// The first relation from the `i`-th character on, and its place.
pub open spec fn first_relation(s: Seq<char>, i: int) -> Option<(int, Relation)>
    decreases s.len() - i,
{
    if i < 0 || i >= s.len() {
        None
    } else {
        match relation_at(s, i) {
            Some(r) => Some((i, r)),
            None => first_relation(s, i + 1),
        }
    }
}

/// Whether a relation admits a side.
pub open spec fn admits(r: Relation, side: Side) -> bool {
    match r {
        Relation::Equal => side == Side::Same,
        Relation::Unequal => side != Side::Same,
        Relation::AtMost => side != Side::Above,
        Relation::AtLeast => side != Side::Below,
        Relation::Less => side == Side::Below,
        Relation::More => side == Side::Above,
    }
}

/// Whether two texts are related: as numbers where both are numbers, else as
/// texts, which have no order.
pub open spec fn related(r: Relation, a: Seq<char>, b: Seq<char>) -> bool {
    match (decimal_of(a), decimal_of(b)) {
        (Some(x), Some(y)) => admits(
            r,
            side_of(scaled(x, places(x, y)), scaled(y, places(x, y))),
        ),
        _ => match r {
            Relation::Equal => a == b,
            Relation::Unequal => a != b,
            _ => false,
        },
    }
}

/// What the left hand of a condition stands for: `@proc.field` for a field of a
/// result, `@proc` for a result, else a parameter.
pub open spec fn operand(
    params: Map<Seq<char>, Seq<char>>,
    results: Map<Seq<char>, GValue>,
    w: Seq<char>,
) -> Option<Seq<char>> {
    match text::after_prefix(w, "@"@) {
        Some(rest) => match text::split_once_spec(rest, '.') {
            Some((proc, field)) => if results.dom().contains(proc) {
                dslresult::field_of(field, ast::value_text(results[proc]))
            } else {
                None
            },
            None => if results.dom().contains(rest) {
                Some(ast::value_text(results[rest]))
            } else {
                None
            },
        },
        None => if params.dom().contains(w) {
            Some(params[w])
        } else {
            None
        },
    }
}

/// What the right hand of a condition stands for: what stands between double
/// quotes, else the word itself.
pub open spec fn literal(w: Seq<char>) -> Option<Seq<char>> {
    if w.len() >= 2 && w[0] == '"' && w.last() == '"' {
        Some(w.subrange(1, w.len() - 1))
    } else if w.len() > 0 {
        Some(w)
    } else {
        None
    }
}

/// Whether a condition holds; the empty condition does.
pub open spec fn holds(
    params: Map<Seq<char>, Seq<char>>,
    results: Map<Seq<char>, GValue>,
    cond: Seq<char>,
) -> bool {
    let c = text::trimmed(cond);
    if c.len() == 0 {
        true
    } else {
        match first_relation(c, 0) {
            None => false,
            Some((k, r)) => match (
                operand(params, results, text::trimmed(c.take(k))),
                literal(text::trimmed(c.skip(k + width(r)))),
            ) {
                (Some(a), Some(b)) => related(r, a, b),
                _ => false,
            },
        }
    }
}

/// Parameters as values.
pub open spec fn param_views(m: TextMap<String>) -> Map<Seq<char>, Seq<char>> {
    m@.map_values(|v: String| v@)
}

/// A relation is where it was found.
proof fn lemma_first_relation(s: Seq<char>, i: int)
    requires
        0 <= i,
    ensures
        match first_relation(s, i) {
            Some((k, r)) => i <= k && k + width(r) <= s.len() && relation_at(s, k) == Some(r),
            None => true,
        },
    decreases s.len() - i,
{
    if i < s.len() && relation_at(s, i) is None {
        lemma_first_relation(s, i + 1);
    }
}

/// The relation written at a place.
fn read_relation(c: &Vec<char>, i: usize) -> (r: Option<Relation>)
    requires
        i < c@.len(),
    ensures
        r == relation_at(c@, i as int),
{
    let n: usize = c.len();
    let double = i < n - 1 && c[i + 1] == '=';
    match c[i] {
        '=' => if double {
            Some(Relation::Equal)
        } else {
            None
        },
        '!' => if double {
            Some(Relation::Unequal)
        } else {
            None
        },
        '<' => Some(
            if double {
                Relation::AtMost
            } else {
                Relation::Less
            },
        ),
        '>' => Some(
            if double {
                Relation::AtLeast
            } else {
                Relation::More
            },
        ),
        _ => None,
    }
}

/// The first relation and its place.
fn find_relation(s: &str) -> (r: Option<(usize, Relation)>)
    ensures
        match r {
            Some((k, x)) => first_relation(s@, 0) == Some((k as int, x)),
            None => first_relation(s@, 0) is None,
        },
{
    let c = text::chars_of(s);
    let mut i: usize = 0;
    while i < c.len()
        invariant
            i <= c@.len(),
            c@ == s@,
            first_relation(s@, 0) == first_relation(s@, i as int),
        decreases c@.len() - i,
    {
        match read_relation(&c, i) {
            Some(x) => {
                return Some((i, x));
            },
            None => {},
        }
        i += 1;
    }
    None
}

/// What the left hand of a condition stands for.
fn read_operand(params: &TextMap<String>, results: &TextMap<Value>, w: &str) -> (r: Option<String>)
    requires
        params.wf(),
        results.wf(),
    ensures
        text::opt_view(r) == operand(param_views(*params), ast::result_views(*results), w@),
{
    match text::strip_prefix(w, "@") {
        Some(rest) => match text::split_once(rest.as_str(), '.') {
            Some((proc, field)) => match results.get(proc.as_str()) {
                Some(v) => dslresult::extract_field(field.as_str(), v.as_text()),
                None => None,
            },
            None => match results.get(rest.as_str()) {
                Some(v) => Some(v.as_text().to_owned()),
                None => None,
            },
        },
        None => match params.get(w) {
            Some(v) => Some(v.clone()),
            None => None,
        },
    }
}

/// What the right hand of a condition stands for.
fn read_literal(w: &str) -> (r: Option<String>)
    ensures
        text::opt_view(r) == literal(w@),
{
    let c = text::chars_of(w);
    let n: usize = c.len();
    if n >= 2 && c[0] == '"' && c[n - 1] == '"' {
        Some(text::slice(w, 1, n - 1))
    } else if n > 0 {
        Some(w.to_owned())
    } else {
        None
    }
}

/// Whether a relation admits a side.
fn accepts(r: Relation, side: Side) -> (b: bool)
    ensures
        b == admits(r, side),
{
    match r {
        Relation::Equal => side == Side::Same,
        Relation::Unequal => side != Side::Same,
        Relation::AtMost => side != Side::Above,
        Relation::AtLeast => side != Side::Below,
        Relation::Less => side == Side::Below,
        Relation::More => side == Side::Above,
    }
}

/// Whether two texts are related.
fn compare(r: Relation, a: &str, b: &str) -> (ok: bool)
    ensures
        ok == related(r, a@, b@),
{
    match (read_decimal(a), read_decimal(b)) {
        (Some(x), Some(y)) => accepts(r, compare_decimals(&x, &y)),
        _ => match r {
            Relation::Equal => text::same(a, b),
            Relation::Unequal => !text::same(a, b),
            _ => false,
        },
    }
}

/// Whether a condition on parameters and results holds.
pub fn eval_when(params: &TextMap<String>, results: &TextMap<Value>, cond: &str) -> (r: bool)
    requires
        params.wf(),
        results.wf(),
    ensures
        r == holds(param_views(*params), ast::result_views(*results), cond@),
{
    let c = text::trim(cond);
    if c.as_str().is_empty() {
        return true;
    }
    match find_relation(c.as_str()) {
        None => false,
        Some((k, x)) => {
            proof {
                lemma_first_relation(c@, 0);
            }
            let n: usize = c.as_str().unicode_len();
            let after: usize = match x {
                Relation::Less => k + 1,
                Relation::More => k + 1,
                _ => k + 2,
            };
            assert(c@.take(k as int) =~= c@.subrange(0, k as int));
            assert(c@.skip(after as int) =~= c@.subrange(after as int, n as int));
            let left = text::trim(text::slice(c.as_str(), 0, k).as_str());
            let right = text::trim(text::slice(c.as_str(), after, n).as_str());
            match (read_operand(params, results, left.as_str()), read_literal(right.as_str())) {
                (Some(a), Some(b)) => compare(x, a.as_str(), b.as_str()),
                _ => false,
            }
        },
    }
}

/// Whether an expectation of a result holds; there it is called `self`.
pub fn eval_expect(expect: &str, result_text: &str) -> (r: bool)
    ensures
        r == holds(
            Map::empty(),
            map!["self"@ => GValue::Text(result_text@)],
            expect@,
        ),
{
    let params: TextMap<String> = TextMap::new();
    let mut results: TextMap<Value> = TextMap::new();
    results.insert("self".to_owned(), Value::Text(result_text.to_owned()));
    assert(param_views(params) =~= Map::<Seq<char>, Seq<char>>::empty());
    assert(ast::result_views(results) =~= map!["self"@ => GValue::Text(result_text@)]);
    eval_when(&params, &results, expect)
}

/// A condition without a relation, and one about something that is not there,
/// does not hold.
pub proof fn law_conditions_fail_closed(
    params: Map<Seq<char>, Seq<char>>,
    results: Map<Seq<char>, GValue>,
    cond: Seq<char>,
)
    requires
        text::trimmed(cond).len() > 0,
        match first_relation(text::trimmed(cond), 0) {
            None => true,
            Some((k, _)) => operand(params, results, text::trimmed(text::trimmed(cond).take(k)))
                is None,
        },
    ensures
        !holds(params, results, cond),
{
}

/// Two texts are equal or unequal, and of two numbers either the first is less,
/// or they are equal, or the first is more.
pub proof fn law_relations_exclude_each_other(a: Seq<char>, b: Seq<char>)
    ensures
        related(Relation::Unequal, a, b) == !related(Relation::Equal, a, b),
        decimal_of(a) is Some && decimal_of(b) is Some ==> {
            &&& related(Relation::AtMost, a, b) == !related(Relation::More, a, b)
            &&& related(Relation::AtLeast, a, b) == !related(Relation::Less, a, b)
            &&& related(Relation::AtMost, a, b) == (related(Relation::Less, a, b) || related(
                Relation::Equal,
                a,
                b,
            ))
        },
        decimal_of(a) is None || decimal_of(b) is None ==> {
            &&& !related(Relation::Less, a, b)
            &&& !related(Relation::More, a, b)
        },
{
}

} // verus!

//! Ordered collections of texts: a set and a map whose members stand in
//! ascending order, so that walking one is the same on every run.

use crate::text;
use vstd::prelude::*;

verus! {

// ── The order ──

/// `a` comes before `b`: at the first position where they differ, `a` has the
/// smaller character or has ended.
pub open spec fn text_lt(a: Seq<char>, b: Seq<char>) -> bool
    decreases a.len(),
{
    if b.len() == 0 {
        false
    } else if a.len() == 0 {
        true
    } else if a[0] != b[0] {
        (a[0] as int) < (b[0] as int)
    } else {
        text_lt(a.skip(1), b.skip(1))
    }
}

/// No text comes before itself.
pub proof fn lemma_lt_irreflexive(a: Seq<char>)
    ensures
        !text_lt(a, a),
    decreases a.len(),
{
    if a.len() > 0 {
        lemma_lt_irreflexive(a.skip(1));
    }
}

/// The order is transitive.
pub proof fn lemma_lt_transitive(a: Seq<char>, b: Seq<char>, c: Seq<char>)
    requires
        text_lt(a, b),
        text_lt(b, c),
    ensures
        text_lt(a, c),
    decreases a.len(),
{
    if a.len() > 0 && a[0] == b[0] && b[0] == c[0] {
        lemma_lt_transitive(a.skip(1), b.skip(1), c.skip(1));
    }
}

/// Of two different texts one comes before the other.
pub proof fn lemma_lt_total(a: Seq<char>, b: Seq<char>)
    ensures
        text_lt(a, b) || text_lt(b, a) || a == b,
    decreases a.len(),
{
    if a.len() == 0 || b.len() == 0 {
        if a.len() == 0 && b.len() == 0 {
            assert(a =~= b);
        }
    } else if a[0] == b[0] {
        lemma_lt_total(a.skip(1), b.skip(1));
        if a.skip(1) == b.skip(1) {
            assert(a =~= seq![a[0]] + a.skip(1));
            assert(b =~= seq![b[0]] + b.skip(1));
        }
    } else {
        assert(a[0] as int != b[0] as int);
    }
}

/// Never both `a` before `b` and `b` before `a`.
pub proof fn lemma_lt_asymmetric(a: Seq<char>, b: Seq<char>)
    requires
        text_lt(a, b),
    ensures
        !text_lt(b, a),
        a != b,
{
    if text_lt(b, a) {
        lemma_lt_transitive(a, b, a);
    }
    lemma_lt_irreflexive(a);
}

/// The code point of a character.
fn code_point(c: char) -> (r: u32)
    ensures
        r == c as int,
{
    c as u32
}

/// `a` comes before `b`.
pub fn text_less(a: &str, b: &str) -> (r: bool)
    ensures
        r == text_lt(a@, b@),
{
    let x = text::chars_of(a);
    let y = text::chars_of(b);
    let mut i: usize = 0;
    assert(a@.skip(0) =~= a@);
    assert(b@.skip(0) =~= b@);
    while i < x.len() && i < y.len() && x[i] == y[i]
        invariant
            i <= x@.len(),
            i <= y@.len(),
            x@ == a@,
            y@ == b@,
            text_lt(a@, b@) == text_lt(a@.skip(i as int), b@.skip(i as int)),
        decreases x@.len() - i,
    {
        assert(a@.skip(i as int).skip(1) =~= a@.skip(i + 1));
        assert(b@.skip(i as int).skip(1) =~= b@.skip(i + 1));
        i += 1;
    }
    if i == y.len() {
        false
    } else if i == x.len() {
        true
    } else {
        code_point(x[i]) < code_point(y[i])
    }
}

/// Each text comes before all that follow it.
pub open spec fn ascending(s: Seq<Seq<char>>) -> bool {
    forall|i: int, j: int| 0 <= i < j < s.len() ==> text_lt(#[trigger] s[i], #[trigger] s[j])
}

/// An ascending sequence holds no text twice.
pub proof fn lemma_ascending_distinct(s: Seq<Seq<char>>)
    requires
        ascending(s),
    ensures
        s.no_duplicates(),
{
    assert forall|i: int, j: int| 0 <= i < s.len() && 0 <= j < s.len() && i != j implies s[i]
        != s[j] by {
        if i < j {
            lemma_lt_asymmetric(s[i], s[j]);
        } else {
            lemma_lt_asymmetric(s[j], s[i]);
        }
    }
}

/// Two ascending sequences with the same members are the same sequence.
pub proof fn lemma_ascending_unique(a: Seq<Seq<char>>, b: Seq<Seq<char>>)
    requires
        ascending(a),
        ascending(b),
        a.to_set() =~= b.to_set(),
    ensures
        a == b,
    decreases a.len(),
{
    if a.len() == 0 {
        if b.len() > 0 {
            assert(b.to_set().contains(b[0]));
            assert(a.to_set().contains(b[0]));
        }
        assert(a =~= b);
    } else {
        assert(a.to_set().contains(a.last()));
        assert(b.to_set().contains(a.last()));
        let k = choose|k: int| 0 <= k < b.len() && b[k] == a.last();
        assert(b.to_set().contains(b.last()));
        assert(a.to_set().contains(b.last()));
        let m = choose|m: int| 0 <= m < a.len() && a[m] == b.last();
        if k < b.len() - 1 {
            assert(text_lt(b[k], b.last()));
            if m < a.len() - 1 {
                assert(text_lt(a[m], a.last()));
                lemma_lt_asymmetric(b[k], b.last());
            } else {
                lemma_lt_irreflexive(a.last());
            }
        }
        assert(a.last() == b.last());
        lemma_ascending_distinct(a);
        lemma_ascending_distinct(b);
        let a1 = a.drop_last();
        let b1 = b.drop_last();
        assert(ascending(a1)) by {
            assert forall|i: int, j: int| 0 <= i < j < a1.len() implies text_lt(
                #[trigger] a1[i],
                #[trigger] a1[j],
            ) by {
                assert(text_lt(a[i], a[j]));
            }
        }
        assert(ascending(b1)) by {
            assert forall|i: int, j: int| 0 <= i < j < b1.len() implies text_lt(
                #[trigger] b1[i],
                #[trigger] b1[j],
            ) by {
                assert(text_lt(b[i], b[j]));
            }
        }
        assert forall|x: Seq<char>| a1.to_set().contains(x) implies b1.to_set().contains(x) by {
            let i = choose|i: int| 0 <= i < a1.len() && a1[i] == x;
            assert(a[i] == x);
            assert(a.to_set().contains(x));
            assert(b.to_set().contains(x));
            let j = choose|j: int| 0 <= j < b.len() && b[j] == x;
            assert(b1[j] == x);
        }
        assert forall|x: Seq<char>| b1.to_set().contains(x) implies a1.to_set().contains(x) by {
            let i = choose|i: int| 0 <= i < b1.len() && b1[i] == x;
            assert(b[i] == x);
            assert(b.to_set().contains(x));
            assert(a.to_set().contains(x));
            let j = choose|j: int| 0 <= j < a.len() && a[j] == x;
            assert(a1[j] == x);
        }
        lemma_ascending_unique(a1, b1);
        assert(a =~= a1.push(a.last()));
        assert(b =~= b1.push(b.last()));
    }
}

/// Inserting a text between what comes before it and what comes after it keeps
/// the sequence ascending.
pub proof fn lemma_insert_ascending(s: Seq<Seq<char>>, k: int, x: Seq<char>)
    requires
        ascending(s),
        0 <= k <= s.len(),
        forall|i: int| 0 <= i < k ==> text_lt(#[trigger] s[i], x),
        forall|i: int| k <= i < s.len() ==> text_lt(x, #[trigger] s[i]),
    ensures
        ascending(s.insert(k, x)),
{
    let t = s.insert(k, x);
    assert forall|i: int, j: int| 0 <= i < j < t.len() implies text_lt(
        #[trigger] t[i],
        #[trigger] t[j],
    ) by {
        let a = if i < k {
            i
        } else {
            i - 1
        };
        let b = if j < k {
            j
        } else {
            j - 1
        };
        if i == k {
            assert(t[j] == s[j - 1]);
        } else if j == k {
            assert(t[i] == s[i]);
        } else {
            assert(t[i] == s[a]);
            assert(t[j] == s[b]);
        }
    }
}

/// The place of `x` in an ascending sequence: how many members come before it.
fn lower_bound(v: &Vec<String>, x: &str) -> (k: usize)
    requires
        ascending(text::views(v@)),
    ensures
        k <= v@.len(),
        forall|i: int| 0 <= i < k ==> text_lt(#[trigger] v@[i]@, x@),
        forall|i: int| k <= i < v@.len() ==> !text_lt(#[trigger] v@[i]@, x@),
        k < v@.len() && v@[k as int]@ != x@ ==> forall|i: int|
            k <= i < v@.len() ==> text_lt(x@, #[trigger] v@[i]@),
        (k < v@.len() && v@[k as int]@ == x@) <==> text::views(v@).contains(x@),
{
    let ghost s = text::views(v@);
    let mut k: usize = 0;
    while k < v.len() && text_less(v[k].as_str(), x)
        invariant
            k <= v@.len(),
            s == text::views(v@),
            ascending(s),
            forall|i: int| 0 <= i < k ==> text_lt(#[trigger] v@[i]@, x@),
        decreases v@.len() - k,
    {
        k += 1;
    }
    proof {
        assert forall|i: int| k <= i < v@.len() implies !text_lt(#[trigger] v@[i]@, x@) by {
            if i > k && text_lt(v@[i]@, x@) {
                assert(text_lt(s[k as int], s[i]));
                lemma_lt_transitive(v@[k as int]@, v@[i]@, x@);
            }
        }
        if k < v@.len() && v@[k as int]@ != x@ {
            lemma_lt_total(v@[k as int]@, x@);
            assert forall|i: int| k <= i < v@.len() implies text_lt(x@, #[trigger] v@[i]@) by {
                if i > k {
                    assert(text_lt(s[k as int], s[i]));
                    lemma_lt_transitive(x@, v@[k as int]@, v@[i]@);
                }
            }
        }
        if k < v@.len() && v@[k as int]@ == x@ {
            assert(s[k as int] == x@);
        }
        if s.contains(x@) {
            let i = choose|i: int| 0 <= i < s.len() && s[i] == x@;
            assert(v@[i]@ == x@);
            lemma_lt_irreflexive(x@);
            if i < k {
                assert(text_lt(v@[i]@, x@));
            }
        }
    }
    k
}

// ── The set ──

/// A set of texts, walked in ascending order.
#[derive(Debug)]
pub struct TextSet {
    items: Vec<String>,
}

impl TextSet {
    /// The members in ascending order.
    pub closed spec fn seq(self) -> Seq<Seq<char>> {
        text::views(self.items@)
    }

    /// The members stand in ascending order.
    pub open spec fn wf(self) -> bool {
        ascending(self.seq())
    }

    /// The members.
    pub open spec fn view(&self) -> Set<Seq<char>> {
        self.seq().to_set()
    }

    /// The empty set.
    pub fn new() -> (r: TextSet)
        ensures
            r.wf(),
            r.seq() == Seq::<Seq<char>>::empty(),
            r@ == Set::<Seq<char>>::empty(),
    {
        let r = TextSet { items: Vec::new() };
        assert(r.seq() =~= Seq::<Seq<char>>::empty());
        assert(r@ =~= Set::<Seq<char>>::empty());
        r
    }

    /// Adds `x`; whether it was not a member before.
    pub fn insert(&mut self, x: String) -> (r: bool)
        requires
            old(self).wf(),
        ensures
            final(self).wf(),
            final(self)@ == old(self)@.insert(x@),
            r == !old(self)@.contains(x@),
            !r ==> final(self).seq() == old(self).seq(),
    {
        let ghost s = self.seq();
        let ghost xv = x@;
        let k = lower_bound(&self.items, x.as_str());
        if k < self.items.len() && text::same(self.items[k].as_str(), x.as_str()) {
            proof {
                assert(self@ =~= old(self)@.insert(xv));
            }
            false
        } else {
            proof {
                assert(!s.contains(xv));
                assert forall|i: int| k <= i < s.len() implies text_lt(xv, #[trigger] s[i]) by {
                    assert(self.items@[i]@ == s[i]);
                }
                assert forall|i: int| 0 <= i < k implies text_lt(#[trigger] s[i], xv) by {
                    assert(self.items@[i]@ == s[i]);
                }
                lemma_insert_ascending(s, k as int, xv);
            }
            self.items.insert(k, x);
            proof {
                assert(self.seq() =~= s.insert(k as int, xv));
                let t = s.insert(k as int, xv);
                assert forall|y: Seq<char>| t.to_set().contains(y) <==> s.to_set().insert(
                    xv,
                ).contains(y) by {
                    if t.contains(y) {
                        let i = choose|i: int| 0 <= i < t.len() && t[i] == y;
                        if i < k {
                            assert(s[i] == y);
                        } else if i > k {
                            assert(s[i - 1] == y);
                        }
                    }
                    if s.contains(y) {
                        let i = choose|i: int| 0 <= i < s.len() && s[i] == y;
                        if i < k {
                            assert(t[i] == y);
                        } else {
                            assert(t[i + 1] == y);
                        }
                    }
                    assert(t[k as int] == xv);
                }
                assert(t.to_set() =~= s.to_set().insert(xv));
            }
            true
        }
    }

    /// Whether `x` is a member.
    pub fn contains(&self, x: &str) -> (r: bool)
        requires
            self.wf(),
        ensures
            r == self@.contains(x@),
    {
        let k = lower_bound(&self.items, x);
        k < self.items.len() && text::same(self.items[k].as_str(), x)
    }

    /// How many members there are.
    pub fn len(&self) -> (r: usize)
        ensures
            r == self.seq().len(),
    {
        self.items.len()
    }

    /// Whether there is no member.
    pub fn is_empty(&self) -> (r: bool)
        ensures
            r == (self.seq().len() == 0),
    {
        self.items.len() == 0
    }

    /// The `i`-th member in ascending order.
    pub fn at(&self, i: usize) -> (r: &String)
        requires
            i < self.seq().len(),
        ensures
            r@ == self.seq()[i as int],
    {
        &self.items[i]
    }

    /// The members in ascending order.
    pub fn to_vec(&self) -> (r: Vec<String>)
        ensures
            text::views(r@) == self.seq(),
    {
        let mut out: Vec<String> = Vec::new();
        let mut i: usize = 0;
        while i < self.items.len()
            invariant
                i <= self.items@.len(),
                text::views(out@) == self.seq().take(i as int),
            decreases self.items@.len() - i,
        {
            let ghost before = out@;
            out.push(self.items[i].clone());
            assert(text::views(out@) =~= text::views(before).push(self.seq()[i as int]));
            i += 1;
            assert(self.seq().take(i as int) =~= self.seq().take(i - 1).push(self.seq()[i - 1]));
        }
        assert(self.seq().take(i as int) =~= self.seq());
        out
    }

    /// An equal set of its own.
    pub fn duplicate(&self) -> (r: TextSet)
        ensures
            r.seq() == self.seq(),
    {
        TextSet { items: self.to_vec() }
    }

    /// Whether every member is a member of `other`.
    pub fn is_subset(&self, other: &TextSet) -> (r: bool)
        requires
            other.wf(),
        ensures
            r == self@.subset_of(other@),
    {
        let mut i: usize = 0;
        while i < self.items.len()
            invariant
                i <= self.items@.len(),
                other.wf(),
                forall|j: int| 0 <= j < i ==> other@.contains(#[trigger] self.seq()[j]),
            decreases self.items@.len() - i,
        {
            if !other.contains(self.items[i].as_str()) {
                assert(self.seq()[i as int] == self.items@[i as int]@);
                assert(self@.contains(self.seq()[i as int]));
                return false;
            }
            assert(self.seq()[i as int] == self.items@[i as int]@);
            i += 1;
        }
        assert forall|x: Seq<char>| self@.contains(x) implies other@.contains(x) by {
            let j = choose|j: int| 0 <= j < self.seq().len() && self.seq()[j] == x;
            assert(other@.contains(self.seq()[j]));
        }
        true
    }
}

impl Clone for TextSet {
    fn clone(&self) -> (r: TextSet)
        ensures
            r.seq() == self.seq(),
    {
        self.duplicate()
    }
}

impl Default for TextSet {
    fn default() -> (r: TextSet)
        ensures
            r.wf(),
            r.seq() == Seq::<Seq<char>>::empty(),
    {
        TextSet::new()
    }
}

// ── The map ──

/// A map from texts, walked in ascending order of the keys.
#[derive(Debug)]
pub struct TextMap<V> {
    keys: Vec<String>,
    vals: Vec<V>,
}

impl<V> TextMap<V> {
    /// The keys in ascending order.
    pub closed spec fn keys(self) -> Seq<Seq<char>> {
        text::views(self.keys@)
    }

    /// The values in the order of their keys.
    pub closed spec fn values(self) -> Seq<V> {
        self.vals@
    }

    /// The keys stand in ascending order and each has its value.
    pub open spec fn wf(self) -> bool {
        ascending(self.keys()) && self.keys().len() == self.values().len()
    }

    /// The value of each key.
    pub open spec fn view(&self) -> Map<Seq<char>, V> {
        Map::new(
            |k: Seq<char>| self.keys().contains(k),
            |k: Seq<char>| self.values()[self.keys().index_of(k)],
        )
    }

    /// The empty map.
    pub fn new() -> (r: TextMap<V>)
        ensures
            r.wf(),
            r.keys() == Seq::<Seq<char>>::empty(),
            r@ == Map::<Seq<char>, V>::empty(),
    {
        let r: TextMap<V> = TextMap { keys: Vec::new(), vals: Vec::new() };
        assert(r.keys() =~= Seq::<Seq<char>>::empty());
        assert(r@ =~= Map::<Seq<char>, V>::empty());
        r
    }

    /// The `i`-th entry is the entry of its key.
    pub proof fn lemma_entry(self, i: int)
        requires
            self.wf(),
            0 <= i < self.keys().len(),
        ensures
            self@.dom().contains(self.keys()[i]),
            self@[self.keys()[i]] == self.values()[i],
    {
        lemma_ascending_distinct(self.keys());
        let k = self.keys()[i];
        assert(self.keys().contains(k));
        let j = self.keys().index_of(k);
        assert(self.keys()[j] == k);
        assert(i == j);
    }

    /// The place of `k` among the keys.
    fn position(&self, k: &str) -> (r: Option<usize>)
        requires
            self.wf(),
        ensures
            match r {
                Some(i) => i < self.keys().len() && self.keys()[i as int] == k@,
                None => !self.keys().contains(k@),
            },
    {
        let i = lower_bound(&self.keys, k);
        if i < self.keys.len() && text::same(self.keys[i].as_str(), k) {
            Some(i)
        } else {
            None
        }
    }

    /// The value of `k`.
    pub fn get(&self, k: &str) -> (r: Option<&V>)
        requires
            self.wf(),
        ensures
            match r {
                Some(v) => self@.dom().contains(k@) && *v == self@[k@],
                None => !self@.dom().contains(k@),
            },
    {
        match self.position(k) {
            Some(i) => {
                proof {
                    self.lemma_entry(i as int);
                }
                Some(&self.vals[i])
            },
            None => None,
        }
    }

    /// Whether `k` is a key.
    pub fn contains_key(&self, k: &str) -> (r: bool)
        requires
            self.wf(),
        ensures
            r == self@.dom().contains(k@),
    {
        self.position(k).is_some()
    }

    /// Gives `k` the value `v`, in place of the one it had.
    pub fn insert(&mut self, k: String, v: V)
        requires
            old(self).wf(),
        ensures
            final(self).wf(),
            final(self)@ == old(self)@.insert(k@, v),
    {
        let ghost s = self.keys();
        let ghost kv = k@;
        let i = lower_bound(&self.keys, k.as_str());
        if i < self.keys.len() && text::same(self.keys[i].as_str(), k.as_str()) {
            self.vals[i] = v;
            proof {
                assert(self.keys() == s);
                lemma_ascending_distinct(s);
                assert forall|x: Seq<char>| s.contains(x) implies self@[x] == old(self)@.insert(
                    kv,
                    v,
                )[x] by {
                    let j = s.index_of(x);
                    assert(s[j] == x);
                    if x == kv {
                        assert(s[i as int] == kv);
                        assert(j == i);
                    } else {
                        assert(j != i);
                    }
                }
                assert(self@ =~= old(self)@.insert(kv, v));
            }
        } else {
            proof {
                assert(!s.contains(kv));
                assert forall|j: int| i <= j < s.len() implies text_lt(kv, #[trigger] s[j]) by {
                    assert(self.keys@[j]@ == s[j]);
                }
                assert forall|j: int| 0 <= j < i implies text_lt(#[trigger] s[j], kv) by {
                    assert(self.keys@[j]@ == s[j]);
                }
                lemma_insert_ascending(s, i as int, kv);
            }
            self.keys.insert(i, k);
            self.vals.insert(i, v);
            proof {
                let t = s.insert(i as int, kv);
                assert(self.keys() =~= t);
                let old_vals = old(self).values();
                assert(self.values() =~= old_vals.insert(i as int, v));
                lemma_ascending_distinct(t);
                lemma_ascending_distinct(s);
                let m = old(self)@.insert(kv, v);
                assert forall|x: Seq<char>| t.contains(x) <==> m.dom().contains(x) by {
                    if t.contains(x) {
                        let j = choose|j: int| 0 <= j < t.len() && t[j] == x;
                        if j < i {
                            assert(s[j] == x);
                        } else if j > i {
                            assert(s[j - 1] == x);
                        }
                    }
                    if s.contains(x) {
                        let j = choose|j: int| 0 <= j < s.len() && s[j] == x;
                        if j < i {
                            assert(t[j] == x);
                        } else {
                            assert(t[j + 1] == x);
                        }
                    }
                    assert(t[i as int] == kv);
                }
                assert forall|x: Seq<char>| t.contains(x) implies self@[x] == m[x] by {
                    let j = t.index_of(x);
                    assert(t[j] == x);
                    if j == i {
                        assert(x == kv);
                    } else {
                        let q = if j < i {
                            j
                        } else {
                            j - 1
                        };
                        assert(s[q] == x);
                        assert(s.index_of(x) == q) by {
                            let q2 = s.index_of(x);
                            assert(s.contains(x));
                            assert(s[q2] == x);
                        }
                        assert(x != kv);
                    }
                }
                assert(self@ =~= m);
            }
        }
    }

    /// Gives the key `k` the value `v` and hands back the one it had.
    pub fn replace(&mut self, k: &str, v: V) -> (r: V)
        requires
            old(self).wf(),
            old(self)@.dom().contains(k@),
        ensures
            final(self).wf(),
            final(self)@ == old(self)@.insert(k@, v),
            r == old(self)@[k@],
    {
        let ghost s = self.keys();
        let mut other = v;
        match self.position(k) {
            Some(i) => {
                proof {
                    self.lemma_entry(i as int);
                }
                std::mem::swap(&mut self.vals[i], &mut other);
                proof {
                    assert(self.keys() == s);
                    lemma_ascending_distinct(s);
                    assert forall|x: Seq<char>| s.contains(x) implies self@[x] == old(
                        self,
                    )@.insert(k@, v)[x] by {
                        let j = s.index_of(x);
                        assert(s[j] == x);
                        if x == k@ {
                            assert(s[i as int] == k@);
                            assert(j == i);
                        } else {
                            assert(j != i);
                        }
                    }
                    assert(self@ =~= old(self)@.insert(k@, v));
                }
            },
            None => {},
        }
        other
    }

    /// How many entries there are.
    pub fn len(&self) -> (r: usize)
        ensures
            r == self.keys().len(),
    {
        self.keys.len()
    }

    /// Whether there is no entry.
    pub fn is_empty(&self) -> (r: bool)
        ensures
            r == (self.keys().len() == 0),
    {
        self.keys.len() == 0
    }

    /// The `i`-th key in ascending order.
    pub fn key_at(&self, i: usize) -> (r: &String)
        requires
            i < self.keys().len(),
        ensures
            r@ == self.keys()[i as int],
    {
        &self.keys[i]
    }

    /// The value of the `i`-th key.
    pub fn value_at(&self, i: usize) -> (r: &V)
        requires
            self.wf(),
            i < self.keys().len(),
        ensures
            *r == self.values()[i as int],
    {
        &self.vals[i]
    }
}

// ── Sorting ──

/// The members of a finite set in ascending order.
pub open spec fn in_order(s: Set<Seq<char>>) -> Seq<Seq<char>> {
    choose|q: Seq<Seq<char>>| ascending(q) && #[trigger] q.to_set() == s
}

/// An ascending sequence is its set in ascending order.
pub proof fn lemma_in_order(q: Seq<Seq<char>>)
    requires
        ascending(q),
    ensures
        in_order(q.to_set()) == q,
{
    let r = in_order(q.to_set());
    assert(ascending(r) && r.to_set() == q.to_set());
    lemma_ascending_unique(r, q);
}

/// Every finite set of texts has an ascending order.
pub proof fn lemma_in_order_exists(s: Set<Seq<char>>)
    requires
        s.finite(),
    ensures
        ascending(in_order(s)),
        in_order(s).to_set() == s,
    decreases s.len(),
{
    if s.len() == 0 {
        let q = Seq::<Seq<char>>::empty();
        assert(q.to_set() =~= s);
        assert(ascending(q));
    } else {
        let x = s.choose();
        let t = s.remove(x);
        lemma_in_order_exists(t);
        let q = in_order(t);
        assert(!q.contains(x)) by {
            if q.contains(x) {
                assert(q.to_set().contains(x));
            }
        }
        let k = lemma_slot_exists(q, x, 0);
        lemma_insert_ascending(q, k, x);
        let r = q.insert(k, x);
        assert forall|y: Seq<char>| r.to_set().contains(y) <==> s.contains(y) by {
            if r.contains(y) {
                let i = choose|i: int| 0 <= i < r.len() && r[i] == y;
                if i < k {
                    assert(q[i] == y);
                    assert(q.to_set().contains(y));
                } else if i > k {
                    assert(q[i - 1] == y);
                    assert(q.to_set().contains(y));
                }
            }
            if s.contains(y) {
                if y == x {
                    assert(r[k] == y);
                } else {
                    assert(q.to_set().contains(y));
                    let i = choose|i: int| 0 <= i < q.len() && q[i] == y;
                    if i < k {
                        assert(r[i] == y);
                    } else {
                        assert(r[i + 1] == y);
                    }
                }
            }
        }
        assert(r.to_set() =~= s);
        assert(ascending(r));
    }
}

/// A text that is not in an ascending sequence has a place in it.
proof fn lemma_slot_exists(q: Seq<Seq<char>>, x: Seq<char>, i: int) -> (k: int)
    requires
        ascending(q),
        !q.contains(x),
        0 <= i <= q.len(),
        forall|j: int| 0 <= j < i ==> text_lt(#[trigger] q[j], x),
    ensures
        0 <= k <= q.len(),
        forall|j: int| 0 <= j < k ==> text_lt(#[trigger] q[j], x),
        forall|j: int| k <= j < q.len() ==> text_lt(x, #[trigger] q[j]),
    decreases q.len() - i,
{
    if i == q.len() {
        i
    } else {
        assert(q.contains(q[i]));
        lemma_lt_total(q[i], x);
        if text_lt(q[i], x) {
            lemma_slot_exists(q, x, i + 1)
        } else {
            assert forall|j: int| i <= j < q.len() implies text_lt(x, #[trigger] q[j]) by {
                if j > i {
                    assert(text_lt(q[i], q[j]));
                    lemma_lt_transitive(x, q[i], q[j]);
                }
            }
            i
        }
    }
}

/// Whether `a` does not come behind `b`.
pub open spec fn text_le(a: Seq<char>, b: Seq<char>) -> bool {
    !text_lt(b, a)
}

/// The texts from the least to the greatest, equal ones side by side.
pub open spec fn sorted(s: Seq<Seq<char>>) -> Seq<Seq<char>> {
    s.sort_by(|a: Seq<char>, b: Seq<char>| text_le(a, b))
}

/// The order of texts is total.
pub proof fn lemma_le_total()
    ensures
        vstd::relations::total_ordering(|a: Seq<char>, b: Seq<char>| text_le(a, b)),
{
    let le = |a: Seq<char>, b: Seq<char>| text_le(a, b);
    assert forall|a: Seq<char>| #[trigger] le(a, a) by {
        lemma_lt_irreflexive(a);
    }
    assert forall|a: Seq<char>, b: Seq<char>| #[trigger] le(a, b) && #[trigger] le(b, a) implies a
        == b by {
        lemma_lt_total(a, b);
    }
    assert forall|a: Seq<char>, b: Seq<char>, c: Seq<char>| #[trigger]
        le(a, b) && #[trigger] le(b, c) implies le(a, c) by {
        if text_lt(c, a) {
            if b == a {
            } else {
                lemma_lt_total(a, b);
                lemma_lt_transitive(c, a, b);
            }
        }
    }
    assert forall|a: Seq<char>, b: Seq<char>| #[trigger] le(a, b) || #[trigger] le(b, a) by {
        if text_lt(b, a) && text_lt(a, b) {
            lemma_lt_asymmetric(a, b);
        }
    }
}

/// A sequence in order with the same texts is the sorted one.
pub proof fn lemma_sorted_is(s: Seq<Seq<char>>, t: Seq<Seq<char>>)
    requires
        s.to_multiset() == t.to_multiset(),
        forall|i: int, j: int| 0 <= i < j < t.len() ==> text_le(#[trigger] t[i], #[trigger] t[j]),
    ensures
        sorted(s) == t,
{
    let le = |a: Seq<char>, b: Seq<char>| text_le(a, b);
    lemma_le_total();
    s.lemma_sort_by_ensures(le);
    assert(vstd::relations::sorted_by(t, le));
    vstd::seq_lib::lemma_sorted_unique(s.sort_by(le), t, le);
}

/// The texts from the least to the greatest, equal ones side by side.
pub fn sort(v: &Vec<String>) -> (r: Vec<String>)
    ensures
        text::views(r@) == sorted(text::views(v@)),
{
    let ghost s = text::views(v@);
    let mut out: Vec<String> = Vec::new();
    let mut i: usize = 0;
    assert(text::views(out@) =~= s.take(0));
    while i < v.len()
        invariant
            i <= v@.len(),
            s == text::views(v@),
            text::views(out@).to_multiset() == s.take(i as int).to_multiset(),
            forall|a: int, b: int|
                0 <= a < b < out@.len() ==> text_le(#[trigger] out@[a]@, #[trigger] out@[b]@),
        decreases v@.len() - i,
    {
        let x = v[i].clone();
        let ghost xv = x@;
        let mut k: usize = 0;
        while k < out.len() && !text_less(x.as_str(), out[k].as_str())
            invariant
                k <= out@.len(),
                x@ == xv,
                forall|a: int| 0 <= a < k ==> text_le(#[trigger] out@[a]@, xv),
            decreases out@.len() - k,
        {
            k += 1;
        }
        let ghost before = out@;
        proof {
            assert forall|a: int| k <= a < before.len() implies text_le(
                xv,
                #[trigger] before[a]@,
            ) by {
                lemma_le_total();
                let le = |a: Seq<char>, b: Seq<char>| text_le(a, b);
                assert(text_lt(xv, before[k as int]@));
                lemma_lt_asymmetric(xv, before[k as int]@);
                assert(le(xv, before[k as int]@));
                if a > k {
                    assert(le(before[k as int]@, before[a]@));
                }
            }
        }
        out.insert(k, x);
        proof {
            assert(text::views(out@) =~= text::views(before).insert(k as int, xv));
            vstd::seq_lib::to_multiset_insert(text::views(before), k as int, xv);
            assert(s.take(i + 1) =~= s.take(i as int).push(xv));
            vstd::seq_lib::to_multiset_build(s.take(i as int), xv);
            assert forall|a: int, b: int| 0 <= a < b < out@.len() implies text_le(
                #[trigger] out@[a]@,
                #[trigger] out@[b]@,
            ) by {
                let p = if a < k {
                    a
                } else {
                    a - 1
                };
                let q = if b < k {
                    b
                } else {
                    b - 1
                };
                if a == k {
                    assert(out@[b] == before[b - 1]);
                } else if b == k {
                    assert(out@[a] == before[a]);
                } else {
                    assert(out@[a] == before[p]);
                    assert(out@[b] == before[q]);
                }
            }
        }
        i += 1;
    }
    proof {
        assert(s.take(i as int) =~= s);
        assert forall|a: int, b: int| 0 <= a < b < text::views(out@).len() implies text_le(
            #[trigger] text::views(out@)[a],
            #[trigger] text::views(out@)[b],
        ) by {
            assert(text_le(out@[a]@, out@[b]@));
        }
        lemma_sorted_is(s, text::views(out@));
    }
    out
}

// ── Pairs of numbers ──

/// Whether the pair `a` does not come behind `b`.
pub open spec fn pair_le(a: (usize, usize), b: (usize, usize)) -> bool {
    a.0 < b.0 || (a.0 == b.0 && a.1 <= b.1)
}

/// The pairs from the least to the greatest, equal ones side by side.
pub open spec fn sorted_pairs(s: Seq<(usize, usize)>) -> Seq<(usize, usize)> {
    s.sort_by(|a: (usize, usize), b: (usize, usize)| pair_le(a, b))
}

/// The pairs from the least to the greatest, equal ones side by side.
pub fn sort_pairs(v: &Vec<(usize, usize)>) -> (r: Vec<(usize, usize)>)
    ensures
        r@ == sorted_pairs(v@),
{
    let ghost le = |a: (usize, usize), b: (usize, usize)| pair_le(a, b);
    let mut out: Vec<(usize, usize)> = Vec::new();
    let mut i: usize = 0;
    assert(out@ =~= v@.take(0));
    while i < v.len()
        invariant
            i <= v@.len(),
            out@.to_multiset() == v@.take(i as int).to_multiset(),
            forall|a: int, b: int|
                0 <= a < b < out@.len() ==> pair_le(#[trigger] out@[a], #[trigger] out@[b]),
        decreases v@.len() - i,
    {
        let x: (usize, usize) = v[i];
        let mut k: usize = 0;
        while k < out.len() && (out[k].0 < x.0 || (out[k].0 == x.0 && out[k].1 <= x.1))
            invariant
                k <= out@.len(),
                forall|a: int| 0 <= a < k ==> pair_le(#[trigger] out@[a], x),
            decreases out@.len() - k,
        {
            k += 1;
        }
        let ghost before = out@;
        out.insert(k, x);
        proof {
            vstd::seq_lib::to_multiset_insert(before, k as int, x);
            assert(v@.take(i + 1) =~= v@.take(i as int).push(x));
            vstd::seq_lib::to_multiset_build(v@.take(i as int), x);
            assert forall|a: int, b: int| 0 <= a < b < out@.len() implies pair_le(
                #[trigger] out@[a],
                #[trigger] out@[b],
            ) by {
                let p = if a < k {
                    a
                } else {
                    a - 1
                };
                let q = if b < k {
                    b
                } else {
                    b - 1
                };
                if a == k {
                    assert(out@[b] == before[b - 1]);
                    if b - 1 > k {
                        assert(pair_le(before[k as int], before[b - 1]));
                    }
                } else if b == k {
                    assert(out@[a] == before[a]);
                } else {
                    assert(out@[a] == before[p]);
                    assert(out@[b] == before[q]);
                }
            }
        }
        i += 1;
    }
    proof {
        assert(v@.take(i as int) =~= v@);
        v@.lemma_sort_by_ensures(le);
        assert(vstd::relations::sorted_by(out@, le));
        vstd::seq_lib::lemma_sorted_unique(v@.sort_by(le), out@, le);
    }
    out
}

} // verus!

//! Growth: pairs of lines that go together become one construct, round by round.

use crate::harvest;
use crate::harvest::CmdCount;
use crate::order;
use crate::order::TextMap;
use crate::text;
use vstd::prelude::*;

verus! {

// ── Constructs that are no work ──

/// Whether a line is nothing but the end of an inline text.
pub open spec fn terminator(line: Seq<char>) -> bool {
    let t = text::trimmed(line);
    t == "PY"@ || t == "PYEOF"@ || t == "EOF"@ || t == "END"@ || t == "PYEOF'"@
}

/// Whether a line only opens an inline program.
pub open spec fn opener(first: Seq<char>) -> bool {
    "python3 - <<"@.is_prefix_of(first) || "python - <<"@.is_prefix_of(first)
        || "python3 -c '"@.is_prefix_of(first) || "python3 -c \""@.is_prefix_of(first) || first
        == "python3"@ || first == "python"@
}

/// Whether a line has some substance.
pub open spec fn substantial(line: Seq<char>) -> bool {
    vstd::utf8::encode_utf8(text::trimmed(line)).len() >= 20
}

/// Whether a construct is a pattern of the language and no work of its own: it
/// has a bare terminator, it starts as any inline program does, or all of its
/// lines are short.
pub open spec fn junk(s: Seq<char>) -> bool {
    let lines = text::lines_spec(s);
    ||| exists|i: int| 0 <= i < lines.len() && terminator(#[trigger] lines[i])
    ||| opener(
        if lines.len() > 0 {
            text::trim_start_spec(lines[0])
        } else {
            Seq::empty()
        },
    )
    ||| forall|i: int| 0 <= i < lines.len() ==> !substantial(#[trigger] lines[i])
}

/// Whether a construct is a pattern of the language and no work of its own.
pub fn is_junk_construct(s: &str) -> (r: bool)
    ensures
        r == junk(s@),
{
    let lines = text::lines(s);
    let ghost lv = text::views(lines@);
    assert(lv.len() == lines@.len());
    let mut i: usize = 0;
    while i < lines.len()
        invariant
            i <= lines@.len(),
            lv == text::views(lines@),
            lv == text::lines_spec(s@),
            forall|k: int| 0 <= k < i ==> !terminator(#[trigger] lv[k]),
        decreases lines@.len() - i,
    {
        let t = text::trim(lines[i].as_str());
        assert(t@ == text::trimmed(lv[i as int]));
        if text::same(t.as_str(), "PY") || text::same(t.as_str(), "PYEOF") || text::same(
            t.as_str(),
            "EOF",
        ) || text::same(t.as_str(), "END") || text::same(t.as_str(), "PYEOF'") {
            assert(terminator(lv[i as int]));
            return true;
        }
        i += 1;
    }
    let first = if lines.len() > 0 {
        assert(lv[0] == lines@[0]@);
        text::trim_start(lines[0].as_str())
    } else {
        let e = String::new();
        assert(e@ =~= Seq::<char>::empty());
        e
    };
    let f = first.as_str();
    if text::starts_with(f, "python3 - <<") || text::starts_with(f, "python - <<")
        || text::starts_with(f, "python3 -c '") || text::starts_with(f, "python3 -c \"")
        || text::same(f, "python3") || text::same(f, "python") {
        return true;
    }
    let mut j: usize = 0;
    while j < lines.len()
        invariant
            j <= lines@.len(),
            lv == text::views(lines@),
            lv == text::lines_spec(s@),
            forall|k: int| 0 <= k < lv.len() ==> !terminator(#[trigger] lv[k]),
            !opener(
                if lv.len() > 0 {
                    text::trim_start_spec(lv[0])
                } else {
                    Seq::empty()
                },
            ),
            forall|k: int| 0 <= k < j ==> !substantial(#[trigger] lv[k]),
        decreases lines@.len() - j,
    {
        let t = text::trim(lines[j].as_str());
        assert(t@ == text::trimmed(lv[j as int]));
        if t.as_str().as_bytes().len() >= 20 {
            assert(substantial(lv[j as int]));
            return false;
        }
        j += 1;
    }
    true
}

// ── Names for texts ──

/// Texts and a number for each.
#[derive(Debug)]
pub struct Interner {
    map: TextMap<usize>,
    strings: Vec<String>,
}

impl Interner {
    /// The texts by their numbers.
    pub closed spec fn texts(self) -> Seq<Seq<char>> {
        text::views(self.strings@)
    }

    /// The number of each text is its place.
    pub closed spec fn wf(self) -> bool {
        &&& self.map.wf()
        &&& forall|k: Seq<char>| #[trigger]
            self.map@.dom().contains(k) ==> self.map@[k] < self.strings@.len()
                && self.texts()[self.map@[k] as int] == k
        &&& forall|i: int|
            0 <= i < self.texts().len() ==> self.map@.dom().contains(#[trigger] self.texts()[i])
                && self.map@[self.texts()[i]] == i
    }

    /// No text has two numbers.
    pub proof fn law_texts_have_one_number(self)
        requires
            self.wf(),
        ensures
            forall|i: int, j: int|
                0 <= i < self.texts().len() && 0 <= j < self.texts().len()
                    && #[trigger] self.texts()[i] == #[trigger] self.texts()[j] ==> i == j,
    {
    }

    /// No texts.
    pub fn new() -> (r: Interner)
        ensures
            r.wf(),
            r.texts() == Seq::<Seq<char>>::empty(),
    {
        let r = Interner { map: TextMap::new(), strings: Vec::new() };
        assert(r.texts() =~= Seq::<Seq<char>>::empty());
        r
    }

    /// The number of a text, which it gets where it has none.
    pub fn intern(&mut self, s: &str) -> (r: usize)
        requires
            old(self).wf(),
        ensures
            final(self).wf(),
            r < final(self).texts().len(),
            final(self).texts()[r as int] == s@,
            old(self).texts().contains(s@) ==> final(self).texts() == old(self).texts(),
            !old(self).texts().contains(s@) ==> final(self).texts() == old(self).texts().push(s@),
    {
        let ghost before = self.texts();
        match self.map.get(s) {
            Some(id) => {
                assert(before[*id as int] == s@);
                *id
            },
            None => {
                assert(!before.contains(s@)) by {
                    if before.contains(s@) {
                        let i = choose|i: int| 0 <= i < before.len() && before[i] == s@;
                        assert(self.map@.dom().contains(before[i]));
                    }
                }
                let id: usize = self.strings.len();
                let ghost map0 = self.map@;
                self.strings.push(s.to_owned());
                self.map.insert(s.to_owned(), id);
                assert(self.texts() =~= before.push(s@));
                proof {
                    assert forall|k: Seq<char>| #[trigger] self.map@.dom().contains(
                        k,
                    ) implies self.map@[k] < self.strings@.len() && self.texts()[self.map@[k] as int]
                        == k by {
                        if k != s@ {
                            assert(map0.dom().contains(k));
                        }
                    }
                    assert forall|i: int| 0 <= i < self.texts().len() implies self.map@.dom().contains(
                        #[trigger] self.texts()[i],
                    ) && self.map@[self.texts()[i]] == i by {
                        if i < before.len() {
                            assert(self.texts()[i] == before[i]);
                            assert(map0.dom().contains(before[i]));
                            assert(before[i] != s@);
                        }
                    }
                }
                id
            },
        }
    }

    /// The text of a number.
    pub fn get(&self, id: usize) -> (r: &str)
        requires
            id < self.texts().len(),
        ensures
            r@ == self.texts()[id as int],
    {
        self.strings[id].as_str()
    }

    /// How many texts there are.
    pub fn len(&self) -> (r: usize)
        ensures
            r == self.texts().len(),
    {
        self.strings.len()
    }
}

// ── The lines of the commands ──

/// The lines with something on them, of the first `n`.
pub open spec fn full_lines(lines: Seq<Seq<char>>, n: int) -> Seq<Seq<char>>
    decreases n,
{
    if n <= 0 {
        Seq::empty()
    } else if text::blank(lines[n - 1]) {
        full_lines(lines, n - 1)
    } else {
        full_lines(lines, n - 1).push(lines[n - 1])
    }
}

/// The lines of a command with something on them.
pub open spec fn lines_of(cmd: Seq<char>) -> Seq<Seq<char>> {
    let lines = text::split_char_spec(cmd, '\n');
    full_lines(lines, lines.len() as int)
}

/// The lines of a command with something on them.
fn command_lines(cmd: &str) -> (r: Vec<String>)
    ensures
        text::views(r@) == lines_of(cmd@),
{
    let lines = text::split_char(cmd, '\n');
    let ghost lv = text::views(lines@);
    let mut out: Vec<String> = Vec::new();
    let mut i: usize = 0;
    assert(text::views(out@) =~= Seq::<Seq<char>>::empty());
    while i < lines.len()
        invariant
            i <= lines@.len(),
            lv == text::views(lines@),
            text::views(out@) == full_lines(lv, i as int),
        decreases lines@.len() - i,
    {
        assert(lv[i as int] == lines@[i as int]@);
        if !text::is_blank(lines[i].as_str()) {
            let ghost before = out@;
            out.push(lines[i].clone());
            assert(text::views(out@) =~= text::views(before).push(lv[i as int]));
        }
        i += 1;
    }
    out
}

/// The texts that numbers stand for.
pub open spec fn meaning(texts: Seq<Seq<char>>, ids: Seq<usize>) -> Seq<Seq<char>> {
    ids.map_values(|id: usize| texts[id as int])
}

/// The numbers of all commands: each ends in the mark, which is no line.
#[derive(Debug)]
pub struct Corpus {
    pub ir: Interner,
    pub mark: usize,
    pub seqs: Vec<Vec<usize>>,
}

/// Whether numbers are in range and the mark stands at the end.
pub open spec fn marked(ids: Seq<usize>, mark: usize, n: int) -> bool {
    &&& ids.len() > 0
    &&& ids.last() == mark
    &&& forall|i: int| 0 <= i < ids.len() ==> (#[trigger] ids[i]) < n
}

/// The mark's text.
pub open spec fn mark_text() -> Seq<char> {
    seq!['\0']
}

impl Corpus {
    /// The numbers are in range, and each sequence ends in the mark.
    pub open spec fn wf(self) -> bool {
        &&& self.ir.wf()
        &&& self.mark < self.ir.texts().len()
        &&& self.ir.texts()[self.mark as int] == mark_text()
        &&& forall|i: int|
            0 <= i < self.seqs@.len() ==> marked(
                #[trigger] self.seqs@[i]@,
                self.mark,
                self.ir.texts().len() as int,
            )
    }

    /// The texts of the sequences, without their marks.
    pub open spec fn view(&self) -> Seq<Seq<Seq<char>>> {
        self.seqs@.map_values(|s: Vec<usize>| meaning(self.ir.texts(), s@.drop_last()))
    }
}

/// How often the commands came in all, of the first `n`.
pub open spec fn total_calls(counts: Seq<CmdCount>, n: int) -> int
    decreases n,
{
    if n <= 0 {
        0
    } else {
        total_calls(counts, n - 1) + counts[n - 1].calls
    }
}

/// The texts of the sequences for the first `n` commands: each command with its
/// lines, as often as it came; one without lines not at all.
pub open spec fn corpus_of(cmds: Seq<Seq<char>>, counts: Seq<CmdCount>, n: int) -> Seq<
    Seq<Seq<char>>,
>
    decreases n,
{
    if n <= 0 {
        Seq::empty()
    } else if lines_of(cmds[n - 1]).len() == 0 {
        corpus_of(cmds, counts, n - 1)
    } else {
        corpus_of(cmds, counts, n - 1) + Seq::new(
            counts[n - 1].calls as nat,
            |k: int| lines_of(cmds[n - 1]),
        )
    }
}

/// How often the commands came in all.
pub fn count_calls(cmds: &TextMap<CmdCount>) -> (r: u128)
    requires
        cmds.wf(),
    ensures
        r == total_calls(cmds.values(), cmds.values().len() as int),
{
    let n: usize = cmds.len();
    let mut total: u128 = 0;
    let mut i: usize = 0;
    while i < n
        invariant
            i <= n,
            n == cmds.values().len(),
            cmds.wf(),
            total == total_calls(cmds.values(), i as int),
            total <= i * 0xFFFF_FFFF_FFFF_FFFF,
        decreases n - i,
    {
        assert(i * 0xFFFF_FFFF_FFFF_FFFF <= 0xFFFF_FFFF_FFFF_FFFF * 0xFFFF_FFFF_FFFF_FFFF)
            by (nonlinear_arith)
            requires
                0 <= i <= 0xFFFF_FFFF_FFFF_FFFF,
        ;
        total = total + cmds.value_at(i).calls as u128;
        i += 1;
    }
    total
}

/// What is wrong where the commands are too few to grow from.
pub fn corpus_refusal(calls: u128, days: u32) -> (r: Option<String>)
    ensures
        match r {
            Some(m) => calls < 200 && m@ == "corpus too small: "@ + text::dec(calls as nat)
                + " calls in "@ + text::dec(days as nat) + "d"@,
            None => calls >= 200,
        },
{
    if calls < 200 {
        let mut m = "corpus too small: ".to_owned();
        m.append(text::decimal(calls).as_str());
        m.append(" calls in ");
        m.append(text::decimal(days as u128).as_str());
        m.append("d");
        Some(m)
    } else {
        None
    }
}

proof fn lemma_meaning_grows(a: Seq<Seq<char>>, b: Seq<Seq<char>>, ids: Seq<usize>)
    requires
        a.is_prefix_of(b),
        forall|i: int| 0 <= i < ids.len() ==> (#[trigger] ids[i]) < a.len(),
    ensures
        meaning(a, ids) == meaning(b, ids),
{
    assert forall|i: int| 0 <= i < ids.len() implies meaning(a, ids)[i] == meaning(b, ids)[i] by {
        let k = ids[i] as int;
        assert(a[k] == b[k]) by {
            assert(b.subrange(0, a.len() as int)[k] == b[k]);
        }
    }
    assert(meaning(a, ids) =~= meaning(b, ids));
}

/// The numbers of the lines, with the mark behind them.
fn encode(ir: &mut Interner, lines: &Vec<String>, mark: usize) -> (r: Vec<usize>)
    requires
        old(ir).wf(),
        mark < old(ir).texts().len(),
    ensures
        final(ir).wf(),
        old(ir).texts().is_prefix_of(final(ir).texts()),
        marked(r@, mark, final(ir).texts().len() as int),
        meaning(final(ir).texts(), r@.drop_last()) == text::views(lines@),
{
    let ghost lv = text::views(lines@);
    let ghost start = ir.texts();
    let mut out: Vec<usize> = Vec::new();
    let mut i: usize = 0;
    assert(meaning(ir.texts(), out@) =~= lv.take(0));
    assert(start.is_prefix_of(ir.texts())) by {
        assert(ir.texts().subrange(0, start.len() as int) =~= start);
    }
    while i < lines.len()
        invariant
            i <= lines@.len(),
            lv == text::views(lines@),
            ir.wf(),
            start.is_prefix_of(ir.texts()),
            mark < start.len(),
            out@.len() == i,
            forall|k: int| 0 <= k < out@.len() ==> (#[trigger] out@[k]) < ir.texts().len(),
            meaning(ir.texts(), out@) == lv.take(i as int),
        decreases lines@.len() - i,
    {
        let ghost before = ir.texts();
        let ghost ids = out@;
        assert(lv[i as int] == lines@[i as int]@);
        let id = ir.intern(lines[i].as_str());
        proof {
            assert(before.is_prefix_of(ir.texts())) by {
                assert(ir.texts().subrange(0, before.len() as int) =~= before);
            }
            assert(start.is_prefix_of(ir.texts())) by {
                assert(ir.texts().subrange(0, start.len() as int) =~= before.subrange(
                    0,
                    start.len() as int,
                ));
            }
            lemma_meaning_grows(before, ir.texts(), ids);
        }
        out.push(id);
        assert(meaning(ir.texts(), out@) =~= meaning(ir.texts(), ids).push(lv[i as int]));
        assert(lv.take(i + 1) =~= lv.take(i as int).push(lv[i as int]));
        i += 1;
    }
    let ghost ids = out@;
    out.push(mark);
    proof {
        assert(out@.drop_last() =~= ids);
        assert(lv.take(lv.len() as int) =~= lv);
        assert(lv.len() == lines@.len());
        assert(start.len() <= ir.texts().len());
    }
    out
}

/// An equal list of its own.
fn copy_ids(v: &Vec<usize>) -> (r: Vec<usize>)
    ensures
        r@ == v@,
{
    let mut out: Vec<usize> = Vec::new();
    let mut i: usize = 0;
    while i < v.len()
        invariant
            i <= v@.len(),
            out@ == v@.take(i as int),
        decreases v@.len() - i,
    {
        out.push(v[i]);
        assert(v@.take(i + 1) =~= v@.take(i as int).push(v@[i as int]));
        i += 1;
    }
    assert(v@.take(v@.len() as int) =~= v@);
    out
}

/// The numbers of all commands, each as often as it came.
pub fn build_corpus(cmds: &TextMap<CmdCount>) -> (r: Corpus)
    requires
        cmds.wf(),
    ensures
        r.wf(),
        r@ == corpus_of(cmds.keys(), cmds.values(), cmds.keys().len() as int),
{
    let ghost keys = cmds.keys();
    let ghost vals = cmds.values();
    let mut ir = Interner::new();
    let mut m = String::new();
    assert(m@ =~= Seq::<char>::empty());
    m.push('\0');
    assert(m@ =~= mark_text());
    let mark = ir.intern(m.as_str());
    let mut c = Corpus { ir, mark, seqs: Vec::new() };
    let mut i: usize = 0;
    assert(c@ =~= Seq::<Seq<Seq<char>>>::empty());
    while i < cmds.len()
        invariant
            i <= keys.len(),
            keys == cmds.keys(),
            vals == cmds.values(),
            cmds.wf(),
            c.wf(),
            c@ == corpus_of(keys, vals, i as int),
        decreases keys.len() - i,
    {
        let cmd = cmds.key_at(i);
        let calls: usize = cmds.value_at(i).calls;
        let lines = command_lines(cmd.as_str());
        let ghost lv = lines_of(cmd@);
        assert(lv.len() == lines@.len());
        if lines.len() > 0 {
            let ghost before = c;
            let ghost seqs0 = c.seqs@;
            let ids = encode(&mut c.ir, &lines, c.mark);
            proof {
                let t0 = before.ir.texts();
                let t1 = c.ir.texts();
                assert(t1[c.mark as int] == mark_text()) by {
                    assert(t1.subrange(0, t0.len() as int)[c.mark as int] == t1[c.mark as int]);
                }
                assert forall|k: int| 0 <= k < c.seqs@.len() implies marked(
                    #[trigger] c.seqs@[k]@,
                    c.mark,
                    t1.len() as int,
                ) by {
                    assert(marked(before.seqs@[k]@, before.mark, t0.len() as int));
                }
                assert forall|k: int| 0 <= k < c.seqs@.len() implies c@[k] == before@[k] by {
                    assert(marked(before.seqs@[k]@, before.mark, t0.len() as int));
                    lemma_meaning_grows(t0, t1, before.seqs@[k]@.drop_last());
                }
                assert(c@ =~= before@);
            }
            let ghost start = c@;
            let ghost more = Seq::new(calls as nat, |k: int| lv);
            let mut k: usize = 0;
            assert(start + more.take(0) =~= start);
            while k < calls
                invariant
                    k <= calls,
                    c.wf(),
                    more == Seq::new(calls as nat, |k: int| lv),
                    marked(ids@, c.mark, c.ir.texts().len() as int),
                    meaning(c.ir.texts(), ids@.drop_last()) == lv,
                    c@ == start + more.take(k as int),
                decreases calls - k,
            {
                let ghost now = c@;
                c.seqs.push(copy_ids(&ids));
                assert(c@ =~= now.push(lv));
                assert(more.take(k + 1) =~= more.take(k as int).push(lv));
                assert(start + more.take(k + 1) =~= (start + more.take(k as int)).push(lv));
                k += 1;
            }
            assert(more.take(calls as int) =~= more);
            assert(corpus_of(keys, vals, i + 1) =~= start + more);
        }
        i += 1;
    }
    c
}

// ── Counting ──

/// How often a number is among the first `n` of a sequence.
pub open spec fn count_in(ids: Seq<usize>, id: usize, n: int) -> int
    decreases n,
{
    if n <= 0 {
        0
    } else if ids[n - 1] == id {
        count_in(ids, id, n - 1) + 1
    } else {
        count_in(ids, id, n - 1)
    }
}

/// How often a number is in the first `n` sequences.
pub open spec fn count_of(seqs: Seq<Vec<usize>>, id: usize, n: int) -> int
    decreases n,
{
    if n <= 0 {
        0
    } else {
        count_of(seqs, id, n - 1) + count_in(seqs[n - 1]@, id, seqs[n - 1]@.len() as int)
    }
}

/// The neighbours in the first `n` of a sequence, without the mark.
pub open spec fn pairs_in(ids: Seq<usize>, mark: usize, n: int) -> Seq<(usize, usize)>
    decreases n,
{
    if n <= 1 {
        Seq::empty()
    } else if ids[n - 2] == mark || ids[n - 1] == mark {
        pairs_in(ids, mark, n - 1)
    } else {
        pairs_in(ids, mark, n - 1).push((ids[n - 2], ids[n - 1]))
    }
}

/// The neighbours in the first `n` sequences.
pub open spec fn all_pairs(seqs: Seq<Vec<usize>>, mark: usize, n: int) -> Seq<(usize, usize)>
    decreases n,
{
    if n <= 0 {
        Seq::empty()
    } else {
        all_pairs(seqs, mark, n - 1) + pairs_in(seqs[n - 1]@, mark, seqs[n - 1]@.len() as int)
    }
}

impl Corpus {
    /// How often a number occurs.
    pub fn frequency(&self, id: usize) -> (r: u128)
        ensures
            r == count_of(self.seqs@, id, self.seqs@.len() as int),
    {
        let n: usize = self.seqs.len();
        let mut total: u128 = 0;
        let mut i: usize = 0;
        while i < n
            invariant
                i <= n,
                n == self.seqs@.len(),
                total == count_of(self.seqs@, id, i as int),
                total <= i * 0xFFFF_FFFF_FFFF_FFFF,
            decreases n - i,
        {
            assert(i * 0xFFFF_FFFF_FFFF_FFFF <= 0xFFFF_FFFF_FFFF_FFFF * 0xFFFF_FFFF_FFFF_FFFF)
                by (nonlinear_arith)
                requires
                    0 <= i <= 0xFFFF_FFFF_FFFF_FFFF,
            ;
            let s: &Vec<usize> = &self.seqs[i];
            let len: usize = s.len();
            let mut c: u64 = 0;
            let mut k: usize = 0;
            while k < len
                invariant
                    k <= len,
                    len == s@.len(),
                    c == count_in(s@, id, k as int),
                    c <= k,
                decreases len - k,
            {
                if s[k] == id {
                    c = c + 1;
                }
                k += 1;
            }
            total = total + c as u128;
            i += 1;
        }
        total
    }

    /// The neighbours of all sequences.
    pub fn pairs(&self) -> (r: Vec<(usize, usize)>)
        ensures
            r@ == all_pairs(self.seqs@, self.mark, self.seqs@.len() as int),
    {
        let mut out: Vec<(usize, usize)> = Vec::new();
        let mut i: usize = 0;
        while i < self.seqs.len()
            invariant
                i <= self.seqs@.len(),
                out@ == all_pairs(self.seqs@, self.mark, i as int),
            decreases self.seqs@.len() - i,
        {
            let s: &Vec<usize> = &self.seqs[i];
            let ghost start = out@;
            let n: usize = s.len();
            let mut k: usize = 0;
            assert(start + pairs_in(s@, self.mark, 0) =~= start);
            while k < n
                invariant
                    k <= n,
                    n == s@.len(),
                    out@ == start + pairs_in(s@, self.mark, k as int),
                decreases n - k,
            {
                if k >= 1 && s[k - 1] != self.mark && s[k] != self.mark {
                    let ghost before = out@;
                    out.push((s[k - 1], s[k]));
                    assert(before.push((s@[k - 1], s@[k as int])) =~= start + pairs_in(
                        s@,
                        self.mark,
                        k as int,
                    ).push((s@[k - 1], s@[k as int])));
                } else if k == 0 {
                    assert(pairs_in(s@, self.mark, 1) =~= pairs_in(s@, self.mark, 0));
                }
                k += 1;
            }
            i += 1;
        }
        out
    }
}

/// How often a pair is among the first `n`.
pub open spec fn pair_count(pairs: Seq<(usize, usize)>, p: (usize, usize), n: int) -> int
    decreases n,
{
    if n <= 0 {
        0
    } else if pairs[n - 1] == p {
        pair_count(pairs, p, n - 1) + 1
    } else {
        pair_count(pairs, p, n - 1)
    }
}

/// A pair and how often it occurs.
#[derive(Debug, Clone, Copy)]
pub struct PairCount {
    pub pair: (usize, usize),
    pub count: usize,
}

/// Whether a pair has its count.
pub open spec fn counted(counts: Seq<PairCount>, p: (usize, usize)) -> bool {
    exists|i: int| 0 <= i < counts.len() && (#[trigger] counts[i]).pair == p
}

/// How often each pair occurs, each pair once.
pub fn count_pairs(pairs: &Vec<(usize, usize)>) -> (r: Vec<PairCount>)
    ensures
        forall|i: int|
            0 <= i < r@.len() ==> (#[trigger] r@[i]).count == pair_count(
                pairs@,
                r@[i].pair,
                pairs@.len() as int,
            ) && r@[i].count > 0,
        forall|i: int, j: int|
            0 <= i < j < r@.len() ==> (#[trigger] r@[i]).pair != (#[trigger] r@[j]).pair,
        forall|k: int| 0 <= k < pairs@.len() ==> counted(r@, #[trigger] pairs@[k]),
{
    let mut out: Vec<PairCount> = Vec::new();
    let mut n: usize = 0;
    while n < pairs.len()
        invariant
            n <= pairs@.len(),
            forall|i: int|
                0 <= i < out@.len() ==> (#[trigger] out@[i]).count == pair_count(
                    pairs@,
                    out@[i].pair,
                    n as int,
                ) && 0 < out@[i].count <= n,
            forall|i: int, j: int|
                0 <= i < j < out@.len() ==> (#[trigger] out@[i]).pair != (#[trigger] out@[j]).pair,
            forall|k: int| 0 <= k < n ==> counted(out@, #[trigger] pairs@[k]),
        decreases pairs@.len() - n,
    {
        let p = pairs[n];
        let ghost before = out@;
        let mut i: usize = 0;
        while i < out.len() && !(out[i].pair.0 == p.0 && out[i].pair.1 == p.1)
            invariant
                i <= out@.len(),
                out@ == before,
                forall|k: int| 0 <= k < i ==> (#[trigger] before[k]).pair != p,
            decreases out@.len() - i,
        {
            i += 1;
        }
        if i < out.len() {
            let c: usize = out[i].count;
            out.set(i, PairCount { pair: p, count: c + 1 });
            proof {
                assert forall|k: int| 0 <= k < out@.len() implies (#[trigger] out@[k]).count
                    == pair_count(pairs@, out@[k].pair, n + 1) && 0 < out@[k].count <= n + 1 by {
                    if k != i {
                        assert(out@[k] == before[k]);
                        if k < i {
                            assert(before[k].pair != before[i as int].pair);
                        } else {
                            assert(before[i as int].pair != before[k].pair);
                        }
                    } else {
                        assert(before[i as int].count == pair_count(
                            pairs@,
                            before[i as int].pair,
                            n as int,
                        ));
                    }
                }
                assert forall|k: int| 0 <= k < n + 1 implies counted(out@, #[trigger] pairs@[k]) by {
                    if k == n {
                        assert(out@[i as int].pair == pairs@[k]);
                    } else {
                        assert(counted(before, pairs@[k]));
                        let q = choose|q: int|
                            0 <= q < before.len() && (#[trigger] before[q]).pair == pairs@[k];
                        assert(out@[q].pair == pairs@[k]);
                    }
                }
            }
        } else {
            proof {
                lemma_absent(pairs@, p, n as int, before);
            }
            out.push(PairCount { pair: p, count: 1 });
            proof {
                assert forall|k: int| 0 <= k < out@.len() implies (#[trigger] out@[k]).count
                    == pair_count(pairs@, out@[k].pair, n + 1) && 0 < out@[k].count <= n + 1 by {
                    if k < before.len() {
                        assert(out@[k] == before[k]);
                        assert(before[k].pair != p);
                    }
                }
                assert forall|k: int| 0 <= k < n + 1 implies counted(out@, #[trigger] pairs@[k]) by {
                    if k == n {
                        assert(out@[before.len() as int].pair == pairs@[k]);
                    } else {
                        assert(counted(before, pairs@[k]));
                        let q = choose|q: int|
                            0 <= q < before.len() && (#[trigger] before[q]).pair == pairs@[k];
                        assert(out@[q].pair == pairs@[k]);
                    }
                }
            }
        }
        n += 1;
    }
    out
}

proof fn lemma_absent(
    pairs: Seq<(usize, usize)>,
    p: (usize, usize),
    n: int,
    known: Seq<PairCount>,
)
    requires
        0 <= n <= pairs.len(),
        forall|k: int| 0 <= k < known.len() ==> (#[trigger] known[k]).pair != p,
        forall|k: int| 0 <= k < n ==> counted(known, #[trigger] pairs[k]),
    ensures
        pair_count(pairs, p, n) == 0,
    decreases n,
{
    if n > 0 {
        assert(counted(known, pairs[n - 1]));
        let i = choose|i: int| 0 <= i < known.len() && (#[trigger] known[i]).pair == pairs[n - 1];
        assert(known[i].pair != p);
        lemma_absent(pairs, p, n - 1, known);
    }
}

// ── Merging ──

/// A pair and the number that takes its place.
#[derive(Debug, Clone, Copy)]
pub struct Merge {
    pub pair: (usize, usize),
    pub id: usize,
}

/// The number that takes the place of a pair, by the last rule among the first
/// `n` that speaks of it.
pub open spec fn replacement(rules: Seq<Merge>, p: (usize, usize), n: int) -> Option<usize>
    decreases n,
{
    if n <= 0 {
        None
    } else if rules[n - 1].pair == p {
        Some(rules[n - 1].id)
    } else {
        replacement(rules, p, n - 1)
    }
}

/// A sequence from its `i`-th number on, with pairs replaced from the left.
pub open spec fn merged(ids: Seq<usize>, rules: Seq<Merge>, mark: usize, i: int) -> Seq<usize>
    decreases ids.len() - i,
{
    if i < 0 || i >= ids.len() {
        Seq::empty()
    } else if i + 1 < ids.len() && ids[i] != mark && ids[i + 1] != mark && replacement(
        rules,
        (ids[i], ids[i + 1]),
        rules.len() as int,
    ) is Some {
        seq![
            replacement(rules, (ids[i], ids[i + 1]), rules.len() as int)->0,
        ] + merged(ids, rules, mark, i + 2)
    } else {
        seq![ids[i]] + merged(ids, rules, mark, i + 1)
    }
}

/// Whether each rule puts the text of both lines in place of the pair.
pub open spec fn faithful(texts: Seq<Seq<char>>, rules: Seq<Merge>, mark: usize) -> bool {
    forall|i: int|
        0 <= i < rules.len() ==> {
            let r = #[trigger] rules[i];
            &&& r.pair.0 < texts.len()
            &&& r.pair.1 < texts.len()
            &&& r.id < texts.len()
            &&& r.id != mark
            &&& texts[r.id as int] == texts[r.pair.0 as int] + "\n"@ + texts[r.pair.1 as int]
        }
}

/// The number that takes the place of a pair.
fn find_rule(rules: &Vec<Merge>, a: usize, b: usize) -> (r: Option<usize>)
    ensures
        r == replacement(rules@, (a, b), rules@.len() as int),
{
    let mut n: usize = rules.len();
    while n > 0
        invariant
            n <= rules@.len(),
            replacement(rules@, (a, b), rules@.len() as int) == replacement(
                rules@,
                (a, b),
                n as int,
            ),
        decreases n,
    {
        if rules[n - 1].pair.0 == a && rules[n - 1].pair.1 == b {
            return Some(rules[n - 1].id);
        }
        n -= 1;
    }
    None
}

/// A sequence with pairs replaced from the left.
fn apply_rules(ids: &Vec<usize>, rules: &Vec<Merge>, mark: usize) -> (r: Vec<usize>)
    ensures
        r@ == merged(ids@, rules@, mark, 0),
{
    let n: usize = ids.len();
    let mut out: Vec<usize> = Vec::new();
    let mut i: usize = 0;
    assert(out@ + merged(ids@, rules@, mark, 0) =~= merged(ids@, rules@, mark, 0));
    while i < n
        invariant
            i <= n,
            n == ids@.len(),
            out@ + merged(ids@, rules@, mark, i as int) == merged(ids@, rules@, mark, 0),
        decreases n - i,
    {
        let ghost before = out@;
        let found = if i < n - 1 && ids[i] != mark && ids[i + 1] != mark {
            find_rule(rules, ids[i], ids[i + 1])
        } else {
            None
        };
        match found {
            Some(m) => {
                out.push(m);
                assert(before + (seq![m] + merged(ids@, rules@, mark, i + 2)) =~= out@ + merged(
                    ids@,
                    rules@,
                    mark,
                    i + 2,
                ));
                i += 2;
            },
            None => {
                out.push(ids[i]);
                assert(before + (seq![ids@[i as int]] + merged(ids@, rules@, mark, i + 1)) =~= out@
                    + merged(ids@, rules@, mark, i + 1));
                i += 1;
            },
        }
    }
    assert(out@ + merged(ids@, rules@, mark, n as int) =~= out@);
    out
}

proof fn lemma_replacement(rules: Seq<Merge>, p: (usize, usize), n: int)
    requires
        0 <= n <= rules.len(),
        replacement(rules, p, n) is Some,
    ensures
        exists|i: int|
            0 <= i < n && (#[trigger] rules[i]).pair == p && rules[i].id == replacement(
                rules,
                p,
                n,
            )->0,
    decreases n,
{
    if rules[n - 1].pair != p {
        lemma_replacement(rules, p, n - 1);
    }
}

/// A merged sequence still ends in the mark.
proof fn lemma_merged_marked(
    texts: Seq<Seq<char>>,
    ids: Seq<usize>,
    rules: Seq<Merge>,
    mark: usize,
    i: int,
)
    requires
        marked(ids, mark, texts.len() as int),
        faithful(texts, rules, mark),
        0 <= i < ids.len(),
    ensures
        marked(merged(ids, rules, mark, i), mark, texts.len() as int),
    decreases ids.len() - i,
{
    let m = merged(ids, rules, mark, i);
    if i + 1 < ids.len() && ids[i] != mark && ids[i + 1] != mark && replacement(
        rules,
        (ids[i], ids[i + 1]),
        rules.len() as int,
    ) is Some {
        lemma_replacement(rules, (ids[i], ids[i + 1]), rules.len() as int);
        assert(i + 2 < ids.len());
        lemma_merged_marked(texts, ids, rules, mark, i + 2);
        let rest = merged(ids, rules, mark, i + 2);
        assert(m.last() == rest.last());
        assert forall|k: int| 0 <= k < m.len() implies (#[trigger] m[k]) < texts.len() by {
            if k > 0 {
                assert(m[k] == rest[k - 1]);
            }
        }
    } else if i + 1 < ids.len() {
        lemma_merged_marked(texts, ids, rules, mark, i + 1);
        let rest = merged(ids, rules, mark, i + 1);
        assert(m.last() == rest.last());
        assert forall|k: int| 0 <= k < m.len() implies (#[trigger] m[k]) < texts.len() by {
            if k > 0 {
                assert(m[k] == rest[k - 1]);
            }
        }
    } else {
        assert(merged(ids, rules, mark, i + 1) =~= Seq::<usize>::empty());
        assert(m =~= seq![ids[i]]);
    }
}

proof fn lemma_join_front(a: Seq<char>, rest: Seq<Seq<char>>, sep: Seq<char>)
    requires
        rest.len() > 0,
    ensures
        text::join_spec(seq![a] + rest, sep) == a + sep + text::join_spec(rest, sep),
    decreases rest.len(),
{
    let all = seq![a] + rest;
    if rest.len() == 1 {
        assert(all.drop_last() =~= seq![a]);
        assert(text::join_spec(all.drop_last(), sep) == a);
    } else {
        lemma_join_front(a, rest.drop_last(), sep);
        assert(all.drop_last() =~= seq![a] + rest.drop_last());
        assert(text::join_spec(all, sep) =~= a + sep + text::join_spec(rest, sep));
    }
}

/// Merging changes the numbers of a command and not its text: what the numbers
/// before the mark stand for, joined by line ends, stays the same.
pub proof fn law_merging_keeps_the_text(
    texts: Seq<Seq<char>>,
    ids: Seq<usize>,
    rules: Seq<Merge>,
    mark: usize,
    i: int,
)
    requires
        marked(ids, mark, texts.len() as int),
        faithful(texts, rules, mark),
        0 <= i < ids.len(),
    ensures
        text::join_spec(meaning(texts, merged(ids, rules, mark, i).drop_last()), "\n"@)
            == text::join_spec(meaning(texts, ids.skip(i).drop_last()), "\n"@),
    decreases ids.len() - i,
{
    let m = merged(ids, rules, mark, i);
    let nl = "\n"@;
    lemma_merged_marked(texts, ids, rules, mark, i);
    let here = meaning(texts, ids.skip(i).drop_last());
    if i + 1 >= ids.len() {
        assert(merged(ids, rules, mark, i + 1) =~= Seq::<usize>::empty());
        assert(m =~= seq![ids[i]]);
        assert(meaning(texts, m.drop_last()) =~= here);
    } else {
        let two = ids[i] != mark && ids[i + 1] != mark && replacement(
            rules,
            (ids[i], ids[i + 1]),
            rules.len() as int,
        ) is Some;
        let step = if two {
            2int
        } else {
            1int
        };
        assert(i + step < ids.len());
        law_merging_keeps_the_text(texts, ids, rules, mark, i + step);
        lemma_merged_marked(texts, ids, rules, mark, i + step);
        let rest = merged(ids, rules, mark, i + step);
        let after = meaning(texts, ids.skip(i + step).drop_last());
        let new_after = meaning(texts, rest.drop_last());
        if two {
            lemma_replacement(rules, (ids[i], ids[i + 1]), rules.len() as int);
            let id = replacement(rules, (ids[i], ids[i + 1]), rules.len() as int)->0;
            let a = texts[ids[i] as int];
            let b = texts[ids[i + 1] as int];
            let ab = texts[id as int];
            assert(ab == a + nl + b);
            assert(meaning(texts, m.drop_last()) =~= seq![ab] + new_after);
            assert(here =~= seq![a] + (seq![b] + after));
            lemma_join_front(a, seq![b] + after, nl);
            if after.len() > 0 {
                lemma_join_front(b, after, nl);
            } else {
                assert(seq![b] + after =~= seq![b]);
            }
            if new_after.len() > 0 {
                lemma_join_front(ab, new_after, nl);
            } else {
                assert(seq![ab] + new_after =~= seq![ab]);
            }
            lemma_empty_rest(texts, ids, rules, mark, i + 2);
            assert(text::join_spec(here, nl) =~= text::join_spec(
                meaning(texts, m.drop_last()),
                nl,
            ));
        } else {
            let a = texts[ids[i] as int];
            assert(meaning(texts, m.drop_last()) =~= seq![a] + new_after);
            assert(here =~= seq![a] + after);
            lemma_empty_rest(texts, ids, rules, mark, i + 1);
            if after.len() > 0 {
                lemma_join_front(a, after, nl);
                lemma_join_front(a, new_after, nl);
            } else {
                assert(seq![a] + after =~= seq![a]);
                assert(seq![a] + new_after =~= seq![a]);
            }
        }
    }
}

/// Nothing but the mark is left after merging just where nothing but the mark was
/// left before.
proof fn lemma_empty_rest(
    texts: Seq<Seq<char>>,
    ids: Seq<usize>,
    rules: Seq<Merge>,
    mark: usize,
    i: int,
)
    requires
        marked(ids, mark, texts.len() as int),
        faithful(texts, rules, mark),
        0 <= i < ids.len(),
    ensures
        (merged(ids, rules, mark, i).len() == 1) == (ids.len() - i == 1),
        merged(ids, rules, mark, i).len() >= 1,
{
    lemma_merged_marked(texts, ids, rules, mark, i);
    if i + 1 >= ids.len() {
        assert(merged(ids, rules, mark, i + 1) =~= Seq::<usize>::empty());
    } else {
        if ids[i + 1] != mark {
            lemma_merged_marked(texts, ids, rules, mark, i + 2);
        }
        lemma_merged_marked(texts, ids, rules, mark, i + 1);
    }
}

/// The text of both lines.
pub open spec fn both(texts: Seq<Seq<char>>, p: (usize, usize)) -> Seq<char> {
    texts[p.0 as int] + "\n"@ + texts[p.1 as int]
}

impl Corpus {
    /// Gives each pair a number for the text of both of its lines.
    fn make_rules(&mut self, picks: &Vec<(usize, usize)>) -> (r: Vec<Merge>)
        requires
            old(self).wf(),
            forall|i: int|
                0 <= i < picks@.len() ==> (#[trigger] picks@[i]).0 < old(self).ir.texts().len()
                    && picks@[i].1 < old(self).ir.texts().len(),
        ensures
            final(self).wf(),
            final(self).seqs@ == old(self).seqs@,
            final(self).mark == old(self).mark,
            old(self).ir.texts().is_prefix_of(final(self).ir.texts()),
            faithful(final(self).ir.texts(), r@, final(self).mark),
            r@.len() == picks@.len(),
            forall|i: int| 0 <= i < picks@.len() ==> (#[trigger] r@[i]).pair == picks@[i],
    {
        let ghost start = self.ir.texts();
        let ghost seqs0 = self.seqs@;
        let mut rules: Vec<Merge> = Vec::new();
        let mut i: usize = 0;
        assert(start.subrange(0, start.len() as int) =~= start);
        while i < picks.len()
            invariant
                i <= picks@.len(),
                self.wf(),
                self.seqs@ == seqs0,
                self.mark == old(self).mark,
                start == old(self).ir.texts(),
                start.is_prefix_of(self.ir.texts()),
                forall|k: int|
                    0 <= k < picks@.len() ==> (#[trigger] picks@[k]).0 < start.len() && picks@[k].1
                        < start.len(),
                faithful(self.ir.texts(), rules@, self.mark),
                rules@.len() == i,
                forall|k: int| 0 <= k < i ==> (#[trigger] rules@[k]).pair == picks@[k],
            decreases picks@.len() - i,
        {
            let p = picks[i];
            let ghost before = *self;
            let ghost t0 = self.ir.texts();
            assert(start.len() <= t0.len());
            let mut s = self.ir.get(p.0).to_owned();
            s.append("\n");
            s.append(self.ir.get(p.1));
            let id = self.ir.intern(s.as_str());
            let ghost t1 = self.ir.texts();
            proof {
                assert(t0.is_prefix_of(t1)) by {
                    assert(t1.subrange(0, t0.len() as int) =~= t0);
                }
                assert forall|k: int| 0 <= k < t0.len() implies t0[k] == t1[k] by {
                    assert(t1.subrange(0, t0.len() as int)[k] == t1[k]);
                }
                assert(start.is_prefix_of(t1)) by {
                    assert(t1.subrange(0, start.len() as int) =~= t0.subrange(
                        0,
                        start.len() as int,
                    ));
                }
                assert forall|k: int| 0 <= k < self.seqs@.len() implies marked(
                    #[trigger] self.seqs@[k]@,
                    self.mark,
                    t1.len() as int,
                ) by {
                    assert(marked(before.seqs@[k]@, before.mark, t0.len() as int));
                }
                reveal_strlit("\n");
                assert(s@ != mark_text()) by {
                    let a = t0[p.0 as int];
                    assert(s@[a.len() as int] == '\n');
                    if s@ == mark_text() {
                        assert(s@.len() == 1);
                        assert(s@[0] == '\0');
                    }
                }
                assert(id != self.mark);
            }
            rules.push(Merge { pair: p, id });
            assert(faithful(t1, rules@, self.mark)) by {
                assert forall|k: int| 0 <= k < rules@.len() implies ({
                    let r = #[trigger] rules@[k];
                    &&& r.pair.0 < t1.len()
                    &&& r.pair.1 < t1.len()
                    &&& r.id < t1.len()
                    &&& r.id != self.mark
                    &&& t1[r.id as int] == t1[r.pair.0 as int] + "\n"@ + t1[r.pair.1 as int]
                }) by {
                    if k < i {
                        let r = rules@[k];
                        assert(r.pair.0 < t0.len() && r.pair.1 < t0.len() && r.id < t0.len());
                    }
                }
            }
            i += 1;
        }
        rules
    }

    /// Puts one number in place of each of the pairs, from the left in each
    /// sequence; the text of every command stays the same.
    pub fn merge(&mut self, picks: &Vec<(usize, usize)>) -> (r: Vec<Merge>)
        requires
            old(self).wf(),
            forall|i: int|
                0 <= i < picks@.len() ==> (#[trigger] picks@[i]).0 < old(self).ir.texts().len()
                    && picks@[i].1 < old(self).ir.texts().len(),
        ensures
            final(self).wf(),
            final(self).mark == old(self).mark,
            old(self).ir.texts().is_prefix_of(final(self).ir.texts()),
            faithful(final(self).ir.texts(), r@, final(self).mark),
            r@.len() == picks@.len(),
            forall|i: int| 0 <= i < picks@.len() ==> (#[trigger] r@[i]).pair == picks@[i],
            final(self).seqs@.len() == old(self).seqs@.len(),
            forall|i: int|
                0 <= i < old(self).seqs@.len() ==> #[trigger] final(self).seqs@[i]@ == merged(
                    old(self).seqs@[i]@,
                    r@,
                    final(self).mark,
                    0,
                ),
            forall|i: int|
                0 <= i < old(self).seqs@.len() ==> text::join_spec(
                    #[trigger] final(self)@[i],
                    "\n"@,
                ) == text::join_spec(old(self)@[i], "\n"@),
    {
        let ghost start = *self;
        let rules = self.make_rules(picks);
        let ghost texts = self.ir.texts();
        let ghost mark = self.mark;
        let n: usize = self.seqs.len();
        let mut out: Vec<Vec<usize>> = Vec::new();
        let mut i: usize = 0;
        while i < n
            invariant
                i <= n,
                n == self.seqs@.len(),
                self.wf(),
                self.seqs@ == start.seqs@,
                self.mark == mark,
                texts == self.ir.texts(),
                faithful(texts, rules@, mark),
                out@.len() == i,
                forall|k: int|
                    0 <= k < i ==> #[trigger] out@[k]@ == merged(
                        start.seqs@[k]@,
                        rules@,
                        mark,
                        0,
                    ),
                forall|k: int|
                    0 <= k < i ==> marked(#[trigger] out@[k]@, mark, texts.len() as int),
            decreases n - i,
        {
            assert(marked(self.seqs@[i as int]@, mark, texts.len() as int));
            proof {
                lemma_merged_marked(texts, self.seqs@[i as int]@, rules@, mark, 0);
            }
            let s = apply_rules(&self.seqs[i], &rules, self.mark);
            out.push(s);
            i += 1;
        }
        self.seqs = out;
        proof {
            assert forall|k: int| 0 <= k < start.seqs@.len() implies text::join_spec(
                #[trigger] self@[k],
                "\n"@,
            ) == text::join_spec(start@[k], "\n"@) by {
                let ids = start.seqs@[k]@;
                assert(marked(ids, start.mark, start.ir.texts().len() as int));
                assert(marked(ids, mark, texts.len() as int)) by {
                    assert(start.ir.texts().len() <= texts.len());
                }
                law_merging_keeps_the_text(texts, ids, rules@, mark, 0);
                assert(ids.skip(0) =~= ids);
                lemma_meaning_grows(start.ir.texts(), texts, ids.drop_last());
                assert(self.seqs@[k]@ == merged(ids, rules@, mark, 0));
            }
        }
        rules
    }

    /// The numbers of the constructs of more than one line that occur.
    pub fn constructs(&self) -> (r: Vec<usize>)
        requires
            self.wf(),
        ensures
            forall|i: int|
                0 <= i < r@.len() ==> (#[trigger] r@[i]) < self.ir.texts().len() && is_construct(
                    *self,
                    r@[i],
                ),
            forall|i: int, j: int| 0 <= i < j < r@.len() ==> r@[i] < r@[j],
            forall|id: usize|
                id < self.ir.texts().len() && #[trigger] is_construct(*self, id) ==> r@.contains(
                    id,
                ),
    {
        let n: usize = self.ir.len();
        let mut out: Vec<usize> = Vec::new();
        let mut id: usize = 0;
        while id < n
            invariant
                id <= n,
                n == self.ir.texts().len(),
                forall|i: int|
                    0 <= i < out@.len() ==> (#[trigger] out@[i]) < id && is_construct(
                        *self,
                        out@[i],
                    ),
                forall|i: int, j: int| 0 <= i < j < out@.len() ==> out@[i] < out@[j],
                forall|k: usize| k < id && #[trigger] is_construct(*self, k) ==> out@.contains(k),
            decreases n - id,
        {
            let found = match text::find_char(self.ir.get(id), '\n') {
                Some(_) => true,
                None => false,
            };
            if found && self.frequency(id) > 0 {
                let ghost before = out@;
                out.push(id);
                proof {
                    assert forall|k: usize| k < id + 1 && #[trigger] is_construct(
                        *self,
                        k,
                    ) implies out@.contains(k) by {
                        if k < id {
                            let i = choose|i: int| 0 <= i < before.len() && before[i] == k;
                            assert(out@[i] == k);
                        } else {
                            assert(out@[before.len() as int] == id);
                        }
                    }
                }
            }
            id += 1;
        }
        out
    }
}

/// Whether a number stands for more than one line and occurs.
pub open spec fn is_construct(c: Corpus, id: usize) -> bool {
    text::find_char_spec(c.ir.texts()[id as int], '\n') is Some && count_of(
        c.seqs@,
        id,
        c.seqs@.len() as int,
    ) > 0
}

} // verus!

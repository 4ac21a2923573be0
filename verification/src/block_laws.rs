//! What holds of the blocks that scripts print: what is printed is read.

use crate::dslresult;
use crate::text;
use vstd::prelude::*;

verus! {

/// A name and a value that can be printed on a line of their own.
pub open spec fn printable(f: (Seq<char>, Seq<char>)) -> bool {
    &&& f.0.len() > 0 && f.1.len() > 0
    &&& text::trimmed(f.0) == f.0 && text::trimmed(f.1) == f.1
    &&& text::find_char_spec(f.0, '=') is None
    &&& text::find_char_spec(f.0, '\n') is None && text::find_char_spec(f.1, '\n') is None
    &&& f.0[0] != '#'
}

/// The line of a field.
pub open spec fn field_line(f: (Seq<char>, Seq<char>)) -> Seq<char> {
    f.0 + "="@ + f.1
}

/// The lines of the fields from the `i`-th on, and the end of the block.
pub open spec fn printed_from(kvs: Seq<(Seq<char>, Seq<char>)>, i: int) -> Seq<char>
    decreases kvs.len() - i,
{
    if i >= kvs.len() {
        "##DSL_END"@ + "\n"@
    } else {
        field_line(kvs[i]) + "\n"@ + printed_from(kvs, i + 1)
    }
}

/// A block with fields, as a script prints it.
pub open spec fn printed(kvs: Seq<(Seq<char>, Seq<char>)>) -> Seq<char> {
    "##DSL_RESULT"@ + "\n"@ + printed_from(kvs, 0)
}

/// Text that ends with its line, or no text.
pub open spec fn whole_lines(s: Seq<char>) -> bool {
    s.len() == 0 || s.last() == '\n'
}

/// A line comes first.
proof fn lemma_first_line(line: Seq<char>, rest: Seq<char>)
    requires
        text::find_char_spec(line, '\n') is None,
        line.len() > 0 ==> line.last() != '\r',
    ensures
        text::lines_spec(line + "\n"@ + rest) == seq![line] + text::lines_spec(rest),
{
    reveal_strlit("\n");
    let s = line + "\n"@ + rest;
    let n = line.len() as int;
    text::lemma_find_char_from(line, '\n', 0);
    assert(s[n] == '\n');
    assert forall|j: int| 0 <= j < n implies s[j] != '\n' by {
        assert(s[j] == line[j]);
    }
    text::lemma_find_char_is(s, '\n', 0, n);
    assert(s.take(n) =~= line);
    assert(s.skip(n + 1) =~= rest);
}

/// The lines of a text that is put behind whole lines come behind their lines.
proof fn lemma_lines_behind(before: Seq<char>, t: Seq<char>)
    requires
        whole_lines(before),
    ensures
        text::lines_spec(before + t) == text::lines_spec(before) + text::lines_spec(t),
    decreases before.len(),
{
    if before.len() == 0 {
        assert(before + t =~= t);
        assert(text::lines_spec(before) + text::lines_spec(t) =~= text::lines_spec(t));
    } else {
        text::lemma_find_char_from(before, '\n', 0);
        match text::find_char_spec(before, '\n') {
            Some(k) => {
                let s = before + t;
                assert(s[k] == '\n');
                assert forall|j: int| 0 <= j < k implies s[j] != '\n' by {
                    assert(s[j] == before[j]);
                }
                text::lemma_find_char_is(s, '\n', 0, k);
                let more = before.skip(k + 1);
                assert(whole_lines(more));
                lemma_lines_behind(more, t);
                assert(s.take(k) =~= before.take(k));
                assert(s.skip(k + 1) =~= more + t);
                let first = seq![text::strip_cr(before.take(k))];
                assert(first + (text::lines_spec(more) + text::lines_spec(t)) =~= first
                    + text::lines_spec(more) + text::lines_spec(t));
            },
            None => {
                assert(before[before.len() - 1] == '\n');
            },
        }
    }
}

/// Lines behind others are read as they are.
proof fn lemma_shifted(a: Seq<Seq<char>>, b: Seq<Seq<char>>, j: int, inside: bool)
    requires
        0 <= j <= b.len(),
    ensures
        dslresult::block_fields(a + b, a.len() + j, inside) == dslresult::block_fields(b, j, inside),
    decreases b.len() - j,
{
    if j < b.len() {
        assert((a + b)[a.len() + j] == b[j]);
        lemma_shifted(a, b, j + 1, true);
        lemma_shifted(a, b, j + 1, false);
    }
}

/// A block that is opened behind other lines is read behind their fields,
/// whether or not they left one open.
proof fn lemma_opened_behind(a: Seq<Seq<char>>, b: Seq<Seq<char>>, i: int, inside: bool)
    requires
        0 <= i <= a.len(),
        b.len() > 0,
        "##DSL_RESULT"@.is_prefix_of(b[0]),
    ensures
        dslresult::block_fields(a + b, i, inside) == dslresult::block_fields(a, i, inside)
            + dslresult::block_fields(b, 0, false),
    decreases a.len() - i,
{
    let rest = dslresult::block_fields(b, 0, false);
    if i == a.len() {
        lemma_shifted(a, b, 0, inside);
        assert(dslresult::block_fields(b, 0, inside) == rest);
        assert(dslresult::block_fields(a, i, inside) + rest =~= rest);
    } else {
        assert((a + b)[i] == a[i]);
        lemma_opened_behind(a, b, i + 1, true);
        lemma_opened_behind(a, b, i + 1, false);
        match dslresult::line_field(a[i]) {
            Some(f) => {
                assert(seq![f] + (dslresult::block_fields(a, i + 1, inside) + rest) =~= seq![f]
                    + dslresult::block_fields(a, i + 1, inside) + rest);
            },
            None => {},
        }
    }
}

/// The line of a printable field is one line with that field and no mark.
proof fn lemma_field_line(f: (Seq<char>, Seq<char>))
    requires
        printable(f),
    ensures
        dslresult::line_field(field_line(f)) == Some(f),
        text::find_char_spec(field_line(f), '\n') is None,
        field_line(f).last() != '\r',
        !"##DSL_RESULT"@.is_prefix_of(field_line(f)),
        !"##DSL_END"@.is_prefix_of(field_line(f)),
{
    reveal_strlit("=");
    reveal_strlit("##DSL_RESULT");
    reveal_strlit("##DSL_END");
    dslresult::lemma_split_once(f.0, f.1);
    let s = field_line(f);
    text::lemma_find_char_from(f.0, '\n', 0);
    text::lemma_find_char_from(f.1, '\n', 0);
    text::lemma_find_char_from(s, '\n', 0);
    match text::find_char_spec(s, '\n') {
        Some(k) => {
            if k < f.0.len() {
                assert(s[k] == f.0[k]);
            } else if k > f.0.len() {
                assert(s[k] == f.1[k - f.0.len() - 1]);
            }
        },
        None => {},
    }
    text::lemma_trim_end(text::trim_start_spec(f.1));
    assert(!text::is_space(f.1.last()));
    assert(s.last() == f.1.last());
    assert(s[0] == f.0[0]);
    if "##DSL_RESULT"@.is_prefix_of(s) {
        assert("##DSL_RESULT"@[0] == s[0]);
    }
    if "##DSL_END"@.is_prefix_of(s) {
        assert("##DSL_END"@[0] == s[0]);
    }
}

/// The printed lines of fields are read as these fields.
proof fn lemma_printed_from(kvs: Seq<(Seq<char>, Seq<char>)>, i: int)
    requires
        0 <= i <= kvs.len(),
        forall|k: int| 0 <= k < kvs.len() ==> printable(#[trigger] kvs[k]),
    ensures
        dslresult::block_fields(text::lines_spec(printed_from(kvs, i)), 0, true) == kvs.skip(i),
    decreases kvs.len() - i,
{
    reveal_strlit("##DSL_END");
    reveal_strlit("##DSL_RESULT");
    if i == kvs.len() {
        let line = "##DSL_END"@;
        text::lemma_find_char_from(line, '\n', 0);
        lemma_first_line(line, Seq::empty());
        assert(line + "\n"@ + Seq::<char>::empty() =~= printed_from(kvs, i));
        let ls = text::lines_spec(printed_from(kvs, i));
        assert(ls =~= seq![line]);
        if "##DSL_RESULT"@.is_prefix_of(ls[0]) {
            assert("##DSL_RESULT"@.len() <= line.len());
        }
        assert(line.is_prefix_of(line)) by {
            assert(line.subrange(0, line.len() as int) =~= line);
        }
        assert(dslresult::block_fields(ls, 1, false) =~= Seq::empty());
        assert(kvs.skip(i) =~= Seq::empty());
    } else {
        let f = kvs[i];
        lemma_field_line(f);
        lemma_first_line(field_line(f), printed_from(kvs, i + 1));
        lemma_printed_from(kvs, i + 1);
        let rest = text::lines_spec(printed_from(kvs, i + 1));
        let ls = text::lines_spec(printed_from(kvs, i));
        assert(ls == seq![field_line(f)] + rest);
        assert(ls[0] == field_line(f));
        lemma_shifted(seq![field_line(f)], rest, 0, true);
        assert(kvs.skip(i) =~= seq![f] + kvs.skip(i + 1));
    }
}

/// What a script prints in a block is read: behind whole lines of whatever else
/// it printed, the fields of the block come behind those that were there, as
/// they were printed. A name must not begin with the sign of the marks or hold
/// the sign between name and value, neither may hold a line end, and both stand
/// without blanks round them.
pub proof fn law_printed_fields_are_read(before: Seq<char>, kvs: Seq<(Seq<char>, Seq<char>)>)
    requires
        whole_lines(before),
        forall|k: int| 0 <= k < kvs.len() ==> printable(#[trigger] kvs[k]),
    ensures
        dslresult::output_fields(before + printed(kvs)) == dslresult::output_fields(before) + kvs,
{
    reveal_strlit("##DSL_RESULT");
    let mark = "##DSL_RESULT"@;
    text::lemma_find_char_from(mark, '\n', 0);
    lemma_first_line(mark, printed_from(kvs, 0));
    lemma_lines_behind(before, printed(kvs));
    lemma_printed_from(kvs, 0);
    let a = text::lines_spec(before);
    let rest = text::lines_spec(printed_from(kvs, 0));
    let b = text::lines_spec(printed(kvs));
    assert(b == seq![mark] + rest);
    assert(b[0] == mark);
    assert(mark.is_prefix_of(mark)) by {
        assert(mark.subrange(0, mark.len() as int) =~= mark);
    }
    lemma_opened_behind(a, b, 0, false);
    lemma_shifted(seq![mark], rest, 0, true);
    assert(kvs.skip(0) =~= kvs);
}

} // verus!

//! Incidents: which layer an error points at, and what is kept as evidence. And
//! the expectation that a known good input is held to.

use crate::text;
use vstd::prelude::*;

verus! {

/// The layer that an error of this kind points at.
pub open spec fn layer_of(code: Seq<char>, msg: Seq<char>) -> Seq<char> {
    if code == "contract"@ {
        if text::has(msg, "missing required output field"@) {
            "L1"@
        } else {
            "L2"@
        }
    } else if code == "truncation"@ || code == "auth"@ || code == "ratelimit"@ {
        "L0.5"@
    } else {
        "L0"@
    }
}

/// The layers that an error points at; a cut-off result points at its own.
pub open spec fn layers_of(code: Seq<char>, msg: Seq<char>, result: Seq<char>) -> Seq<Seq<char>> {
    let l = layer_of(code, msg);
    if text::has(result, "meta_finish_reason=length"@) && l != "L0.5"@ {
        seq![l, "L0.5"@]
    } else {
        seq![l]
    }
}

/// The layers that an error points at.
pub fn signals_from_error(err_code: &str, err_msg: &str, result_text: &str) -> (r: Vec<String>)
    ensures
        text::views(r@) == layers_of(err_code@, err_msg@, result_text@),
{
    let layer = if text::same(err_code, "contract") {
        if text::contains(err_msg, "missing required output field") {
            "L1"
        } else {
            "L2"
        }
    } else if text::same(err_code, "truncation") || text::same(err_code, "auth") || text::same(
        err_code,
        "ratelimit",
    ) {
        "L0.5"
    } else {
        "L0"
    };
    let mut out: Vec<String> = Vec::new();
    out.push(layer.to_owned());
    if text::contains(result_text, "meta_finish_reason=length") && !text::same(layer, "L0.5") {
        out.push("L0.5".to_owned());
        assert(text::views(out@) =~= seq![layer@, "L0.5"@]);
    } else {
        assert(text::views(out@) =~= seq![layer@]);
    }
    out
}

/// What stands in front of the raw output of an encoded result.
pub open spec fn fields_part(rest: Seq<char>) -> Seq<char> {
    match text::find_str_spec(rest, "§§RAW§§"@) {
        Some(i) => rest.take(i),
        None => rest,
    }
}

/// The evidence of an incident.
pub open spec fn evidence(msg: Seq<char>, result: Seq<char>) -> Seq<char> {
    let head = "err: "@ + text::cut_spec(msg, 200);
    match text::after_prefix(result, "§§FIELDS§§"@) {
        Some(rest) => head + " | fields: "@ + text::cut_spec(fields_part(rest), 100),
        None => head,
    }
}

/// The evidence of an incident: the message, and the fields of the result.
pub fn evidence_snapshot(err_msg: &str, result_text: &str) -> (r: String)
    ensures
        r@ == evidence(err_msg@, result_text@),
{
    let mut s = "err: ".to_owned();
    s.append(text::cut(err_msg, 200).as_str());
    match text::strip_prefix(result_text, "§§FIELDS§§") {
        Some(rest) => {
            let fields = match text::find_str(rest.as_str(), "§§RAW§§") {
                Some(i) => {
                    proof {
                        text::lemma_find_from(rest@, "§§RAW§§"@, 0);
                    }
                    let f = text::slice(rest.as_str(), 0, i);
                    assert(f@ =~= rest@.take(i as int));
                    f
                },
                None => rest,
            };
            s.append(" | fields: ");
            s.append(text::cut(fields.as_str(), 100).as_str());
        },
        None => {},
    }
    s
}

/// How an incident was resolved, as an addition to its evidence.
pub fn resolution_note(resolution: &str) -> (r: String)
    ensures
        r@ == " | resolved: "@ + text::cut_spec(resolution@, 200),
{
    let mut s = " | resolved: ".to_owned();
    s.append(text::cut(resolution, 200).as_str());
    s
}

/// What a known good input is held to: what was asked, or that it went well.
pub open spec fn expectation(e: Seq<char>) -> Seq<char> {
    let t = text::trimmed(e);
    if t.len() == 0 {
        "@self.ok == 1"@
    } else {
        t
    }
}

/// What a known good input is held to: what was asked, or that it went well.
pub fn normalize_expect(expect: &str) -> (r: String)
    ensures
        r@ == expectation(expect@),
{
    let t = text::trim(expect);
    if t.as_str().is_empty() {
        "@self.ok == 1".to_owned()
    } else {
        t
    }
}

} // verus!

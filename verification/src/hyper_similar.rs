//! Graphs of the same shape: how a candidate compares with a query, and the
//! report for whoever builds a graph.

use crate::hyper_rank;
use crate::hyper_rank::Rank;
use crate::hyper_sig;
use crate::hyper_sig::{GSig, StructSig};
use crate::json;
use crate::text;
use vstd::prelude::*;

verus! {

/// The key of an overlap of one half: the bits of that number as a double.
pub const HALF_KEY: u64 = 0x3FE0_0000_0000_0000;

/// How far the tags of two graphs overlap, on a scale from none to all: the
/// bits of the number as a double, which ascend with it, and the number with
/// four decimals.
#[derive(Debug)]
pub struct Overlap {
    pub key: u64,
    pub text: String,
}

/// How a graph compares with a query.
#[derive(Debug)]
pub struct SimilarHit {
    pub path: String,
    pub name: String,
    /// `hyper` or `pipeline`.
    pub kind: &'static str,
    pub structure_match: bool,
    pub tag_jaccard: Overlap,
    pub structure_key: String,
    pub note: String,
}

/// How a graph compares with a query, as values.
pub struct GHit {
    pub path: Seq<char>,
    pub name: Seq<char>,
    pub kind: Seq<char>,
    pub structure_match: bool,
    pub key: u64,
    pub shown: Seq<char>,
    pub structure_key: Seq<char>,
    pub note: Seq<char>,
}

impl SimilarHit {
    pub open spec fn view(&self) -> GHit {
        GHit {
            path: self.path@,
            name: self.name@,
            kind: self.kind@,
            structure_match: self.structure_match,
            key: self.tag_jaccard.key,
            shown: self.tag_jaccard.text@,
            structure_key: self.structure_key@,
            note: self.note@,
        }
    }
}

/// The hits as values.
pub open spec fn hit_views(v: Seq<SimilarHit>) -> Seq<GHit> {
    v.map_values(|h: SimilarHit| h@)
}

/// Whether both are hypergraphs.
pub open spec fn both_hyper(q: GSig, c: GSig) -> bool {
    q.hypergraph_key is Some && c.hypergraph_key is Some
}

/// The key of `a` for a comparison with `b`: two hypergraphs are compared by
/// their edges, all others by their projections.
pub open spec fn key_against(a: GSig, b: GSig) -> Seq<char> {
    if both_hyper(a, b) {
        a.hypergraph_key->0
    } else {
        hyper_sig::dag_key_of(a)
    }
}

/// Whether two graphs have the same shape. Tags do not count.
pub open spec fn same_structure(q: GSig, c: GSig) -> bool {
    key_against(q, c) == key_against(c, q)
}

/// What to say of a candidate.
pub open spec fn similar_note(q: GSig, c: GSig, kind: Seq<char>, key: u64) -> Seq<char> {
    if same_structure(q, c) {
        if both_hyper(q, c) {
            "ordered typed hypergraph isomorphic (incidence key)"@
        } else if kind == "pipeline"@ || q.hypergraph_key is Some {
            "DAG projection isomorphic (not hypergraph iso — pipeline has no hyperedges)"@
        } else if key >= HALF_KEY {
            "structure isomorphic; tags agree (soft)"@
        } else {
            "structure isomorphic; tags diverge (ok — tags are soft)"@
        }
    } else if q.roles == c.roles {
        "same role sequence; edge/gate/hyperedge pattern differs"@
    } else {
        "not isomorphic (role/edge mismatch) — tag overlap ignored for reuse"@
    }
}

/// How a candidate compares with a query.
pub open spec fn scored(
    q: GSig,
    c: GSig,
    path: Seq<char>,
    name: Seq<char>,
    kind: Seq<char>,
    key: u64,
    shown: Seq<char>,
) -> GHit {
    GHit {
        path,
        name,
        kind,
        structure_match: same_structure(q, c),
        key,
        shown,
        structure_key: key_against(c, q),
        note: similar_note(q, c, kind, key),
    }
}

/// Whether the words are the same.
fn same_words(a: &Vec<&'static str>, b: &Vec<&'static str>) -> (r: bool)
    ensures
        r == (hyper_sig::word_views(a@) == hyper_sig::word_views(b@)),
{
    let ghost av = hyper_sig::word_views(a@);
    let ghost bv = hyper_sig::word_views(b@);
    if a.len() != b.len() {
        assert(av.len() != bv.len());
        return false;
    }
    let mut i: usize = 0;
    while i < a.len()
        invariant
            i <= a@.len(),
            a@.len() == b@.len(),
            av == hyper_sig::word_views(a@),
            bv == hyper_sig::word_views(b@),
            forall|k: int| 0 <= k < i ==> av[k] == bv[k],
        decreases a@.len() - i,
    {
        assert(av[i as int] == a@[i as int]@);
        assert(bv[i as int] == b@[i as int]@);
        if !text::same(a[i], b[i]) {
            return false;
        }
        i += 1;
    }
    assert(av =~= bv);
    true
}

/// The key of `a` for a comparison with `b`.
fn key_for(a: &StructSig, b: &StructSig) -> (r: String)
    ensures
        r@ == key_against(a@, b@),
{
    match (&a.hypergraph_key, &b.hypergraph_key) {
        (Some(k), Some(_)) => k.clone(),
        _ => a.dag_key(),
    }
}

/// How a candidate compares with a query. `overlap` says how far their tags
/// overlap; it does not count for the shape.
pub fn score_similar(
    query: &StructSig,
    cand: &StructSig,
    path: &str,
    name: &str,
    kind: &'static str,
    overlap: Overlap,
) -> (r: SimilarHit)
    ensures
        r@ == scored(query@, cand@, path@, name@, kind@, overlap.key, overlap.text@),
{
    let qk = key_for(query, cand);
    let ck = key_for(cand, query);
    let structure_match = text::same(qk.as_str(), ck.as_str());
    let both = query.hypergraph_key.is_some() && cand.hypergraph_key.is_some();
    let note = if structure_match {
        if both {
            "ordered typed hypergraph isomorphic (incidence key)"
        } else if text::same(kind, "pipeline") || query.hypergraph_key.is_some() {
            "DAG projection isomorphic (not hypergraph iso — pipeline has no hyperedges)"
        } else if overlap.key >= HALF_KEY {
            "structure isomorphic; tags agree (soft)"
        } else {
            "structure isomorphic; tags diverge (ok — tags are soft)"
        }
    } else if same_words(&query.roles, &cand.roles) {
        "same role sequence; edge/gate/hyperedge pattern differs"
    } else {
        "not isomorphic (role/edge mismatch) — tag overlap ignored for reuse"
    };
    SimilarHit {
        path: path.to_owned(),
        name: name.to_owned(),
        kind,
        structure_match,
        tag_jaccard: overlap,
        structure_key: ck,
        note: note.to_owned(),
    }
}

/// Whether two graphs match rests on neither their tags nor the overlap of
/// their tags.
pub proof fn law_tags_do_not_match(
    q: GSig,
    c: GSig,
    q2: GSig,
    c2: GSig,
    path: Seq<char>,
    name: Seq<char>,
    kind: Seq<char>,
    key: u64,
    key2: u64,
    shown: Seq<char>,
    shown2: Seq<char>,
)
    requires
        q2 == (GSig { tags: q2.tags, ..q }),
        c2 == (GSig { tags: c2.tags, ..c }),
    ensures
        scored(q, c, path, name, kind, key, shown).structure_match == scored(
            q2,
            c2,
            path,
            name,
            kind,
            key2,
            shown2,
        ).structure_match,
        scored(q, c, path, name, kind, key, shown).structure_key == scored(
            q2,
            c2,
            path,
            name,
            kind,
            key2,
            shown2,
        ).structure_key,
{
}

/// The hits in the order in which they are shown, by their places.
pub fn rank_hits(hits: &Vec<SimilarHit>) -> (r: Vec<usize>)
    ensures
        r@ == hyper_rank::ranking(
            hit_views(hits@).map_values(
                |h: GHit|
                    hyper_rank::GRank {
                        top: h.structure_match,
                        key: h.key,
                        path: h.path,
                        node: Seq::empty(),
                    },
            ),
            hits@.len() as int,
        ),
        forall|i: int| 0 <= i < r@.len() ==> #[trigger] r@[i] < hits@.len(),
{
    let ghost all = hit_views(hits@).map_values(
        |h: GHit|
            hyper_rank::GRank {
                top: h.structure_match,
                key: h.key,
                path: h.path,
                node: Seq::empty(),
            },
    );
    let mut ranks: Vec<Rank> = Vec::new();
    let mut i: usize = 0;
    assert(hyper_rank::rank_views(ranks@) =~= all.take(0));
    while i < hits.len()
        invariant
            i <= hits@.len(),
            all == hit_views(hits@).map_values(
                |h: GHit|
                    hyper_rank::GRank {
                        top: h.structure_match,
                        key: h.key,
                        path: h.path,
                        node: Seq::empty(),
                    },
            ),
            hyper_rank::rank_views(ranks@) == all.take(i as int),
        decreases hits@.len() - i,
    {
        let h: &SimilarHit = &hits[i];
        let k = Rank {
            top: h.structure_match,
            key: h.tag_jaccard.key,
            path: h.path.clone(),
            node: String::new(),
        };
        assert(k.node@ =~= Seq::<char>::empty());
        assert(k@ == all[i as int]);
        let ghost before = ranks@;
        ranks.push(k);
        assert(hyper_rank::rank_views(ranks@) =~= hyper_rank::rank_views(before).push(
            all[i as int],
        ));
        assert(all.take(i + 1) =~= all.take(i as int).push(all[i as int]));
        i += 1;
    }
    assert(all.take(i as int) =~= all);
    hyper_rank::rank(&ranks)
}

// ── Report ──

/// A path with slashes alone.
pub open spec fn slashed(p: Seq<char>) -> Seq<char> {
    text::replace_spec(p, "\\"@, "/"@)
}

/// A path with slashes alone.
pub fn with_slashes(p: &str) -> (r: String)
    ensures
        r@ == slashed(p@),
{
    proof {
        reveal_strlit("\\");
    }
    text::replace(p, "\\", "/")
}

/// A truth value as text.
pub open spec fn bool_text(b: bool) -> Seq<char> {
    if b {
        "true"@
    } else {
        "false"@
    }
}

/// Whether a hit is reported: it is not the query itself, and has its shape or
/// at least its roles.
pub open spec fn reported(query_path: Seq<char>, h: GHit) -> bool {
    slashed(h.path) != slashed(query_path) && (h.structure_match || "same role sequence"@.is_prefix_of(
        h.note,
    ))
}

/// A hit in the report.
pub open spec fn hit_json(h: GHit) -> Seq<char> {
    "{\"isomorphic\":"@ + bool_text(h.structure_match) + ",\"reuse_action\":\""@ + (
    if h.structure_match {
        "reuse_pipeline"@
    } else {
        "adapt_topology"@
    }) + "\",\"kind\":\""@ + h.kind + "\",\"name\":\""@ + json::escaped(h.name) + "\",\"path\":\""@
        + json::escaped(h.path) + "\",\"tag_jaccard\":"@ + h.shown + ",\"structure_key\":\""@
        + json::escaped(h.structure_key) + "\",\"note\":\""@ + json::escaped(h.note) + "\"}"@
}

/// The reported ones of the first `n` hits.
pub open spec fn reported_hits(query_path: Seq<char>, hits: Seq<GHit>, n: int) -> Seq<Seq<char>>
    decreases n,
{
    if n <= 0 {
        Seq::empty()
    } else if reported(query_path, hits[n - 1]) {
        reported_hits(query_path, hits, n - 1).push(hit_json(hits[n - 1]))
    } else {
        reported_hits(query_path, hits, n - 1)
    }
}

/// The key of a hypergraph in the report.
pub open spec fn hypergraph_key_json(k: Option<Seq<char>>) -> Seq<char> {
    match k {
        Some(k) => "\"hypergraph_key\":\""@ + json::escaped(k) + "\","@,
        None => "\"hypergraph_key\":null,"@,
    }
}

/// The report on graphs of the same shape.
pub open spec fn similar_report(
    query_path: Seq<char>,
    query_name: Seq<char>,
    q: GSig,
    hits: Seq<GHit>,
) -> Seq<char> {
    "{\"query_path\":\""@ + json::escaped(query_path) + "\",\"query_name\":\""@ + json::escaped(
        query_name,
    ) + "\",\"dag_key\":\""@ + json::escaped(hyper_sig::dag_key_of(q)) + "\","@
        + hypergraph_key_json(q.hypergraph_key) + "\"structure_key\":\""@ + json::escaped(
        hyper_sig::structure_key_of(q),
    ) + "\","@
        + "\"match_rule\":\"hyper↔hyper: hypergraph_key (ordered typed incidence); hyper↔pipeline or pipeline↔pipeline: dag_key only; tags soft rank; never claim hypergraph iso for pipeline hits\","@
        + "\"agent_instruction\":\"Before writing a new .hyper/.pipeline: if any hit has isomorphic=true, REUSE that path (hyper check + patch impl bodies) instead of inventing topology. If reuse_action=adapt_topology, keep role sequence and fix edges/gates. Never treat tag overlap alone as permission to reuse.\","@
        + "\"hits\":["@ + text::join_spec(reported_hits(query_path, hits, hits.len() as int), ","@)
        + "]}"@
}

/// A hit in the report.
fn hit_text(h: &SimilarHit) -> (r: String)
    ensures
        r@ == hit_json(h@),
{
    let mut s = "{\"isomorphic\":".to_owned();
    s.append(
        if h.structure_match {
            "true"
        } else {
            "false"
        },
    );
    s.append(",\"reuse_action\":\"");
    s.append(
        if h.structure_match {
            "reuse_pipeline"
        } else {
            "adapt_topology"
        },
    );
    s.append("\",\"kind\":\"");
    s.append(h.kind);
    s.append("\",\"name\":\"");
    s.append(json::escape(h.name.as_str()).as_str());
    s.append("\",\"path\":\"");
    s.append(json::escape(h.path.as_str()).as_str());
    s.append("\",\"tag_jaccard\":");
    s.append(h.tag_jaccard.text.as_str());
    s.append(",\"structure_key\":\"");
    s.append(json::escape(h.structure_key.as_str()).as_str());
    s.append("\",\"note\":\"");
    s.append(json::escape(h.note.as_str()).as_str());
    s.append("\"}");
    s
}

/// The report on graphs of the same shape, as JSON.
pub fn similar_report_json(
    query_path: &str,
    query_name: &str,
    query_sig: &StructSig,
    hits: &Vec<SimilarHit>,
) -> (r: String)
    ensures
        r@ == similar_report(query_path@, query_name@, query_sig@, hit_views(hits@)),
{
    let ghost hv = hit_views(hits@);
    let me = with_slashes(query_path);
    let mut shown: Vec<String> = Vec::new();
    let mut i: usize = 0;
    assert(text::views(shown@) =~= Seq::<Seq<char>>::empty());
    while i < hits.len()
        invariant
            i <= hits@.len(),
            hv == hit_views(hits@),
            me@ == slashed(query_path@),
            text::views(shown@) == reported_hits(query_path@, hv, i as int),
        decreases hits@.len() - i,
    {
        let h: &SimilarHit = &hits[i];
        assert(hv[i as int] == h@);
        let own = text::same(with_slashes(h.path.as_str()).as_str(), me.as_str());
        if !own && (h.structure_match || text::starts_with(h.note.as_str(), "same role sequence")) {
            let t = hit_text(h);
            let ghost tv = t@;
            let ghost before = shown@;
            shown.push(t);
            assert(text::views(shown@) =~= text::views(before).push(tv));
        }
        i += 1;
    }
    let mut s = "{\"query_path\":\"".to_owned();
    s.append(json::escape(query_path).as_str());
    s.append("\",\"query_name\":\"");
    s.append(json::escape(query_name).as_str());
    s.append("\",\"dag_key\":\"");
    s.append(json::escape(query_sig.dag_key().as_str()).as_str());
    s.append("\",");
    match &query_sig.hypergraph_key {
        Some(k) => {
            let mut t = "\"hypergraph_key\":\"".to_owned();
            t.append(json::escape(k.as_str()).as_str());
            t.append("\",");
            s.append(t.as_str());
        },
        None => {
            s.append("\"hypergraph_key\":null,");
        },
    }
    s.append("\"structure_key\":\"");
    s.append(json::escape(query_sig.structure_key().as_str()).as_str());
    s.append("\",");
    s.append(
        "\"match_rule\":\"hyper↔hyper: hypergraph_key (ordered typed incidence); hyper↔pipeline or pipeline↔pipeline: dag_key only; tags soft rank; never claim hypergraph iso for pipeline hits\",",
    );
    s.append(
        "\"agent_instruction\":\"Before writing a new .hyper/.pipeline: if any hit has isomorphic=true, REUSE that path (hyper check + patch impl bodies) instead of inventing topology. If reuse_action=adapt_topology, keep role sequence and fix edges/gates. Never treat tag overlap alone as permission to reuse.\",",
    );
    s.append("\"hits\":[");
    s.append(text::join(shown.as_slice(), ",").as_str());
    s.append("]}");
    s
}

/// Where to look for graphs: the roots, or the example directories.
pub open spec fn scan_of(roots: Seq<Seq<char>>) -> Seq<Seq<char>> {
    if roots.len() == 0 {
        seq!["examples"@, "examples/hyper"@, "examples/scripts"@]
    } else {
        roots
    }
}

/// Where to look for graphs: the roots, or the example directories.
pub fn scan_roots(roots: &Vec<String>) -> (r: Vec<String>)
    ensures
        text::views(r@) == scan_of(text::views(roots@)),
{
    if roots.len() == 0 {
        let mut out: Vec<String> = Vec::new();
        out.push("examples".to_owned());
        out.push("examples/hyper".to_owned());
        out.push("examples/scripts".to_owned());
        assert(text::views(out@) =~= scan_of(text::views(roots@)));
        out
    } else {
        text::copy_all(roots)
    }
}

/// The kinds of files that hold graphs.
#[derive(Debug, Clone, Copy, PartialEq, Eq, Structural)]
pub enum GraphKind {
    Hyper,
    Pipeline,
}

/// The kind of a file, by the end of its path.
pub open spec fn kind_of_path(p: Seq<char>) -> Option<GraphKind> {
    if ".hyper"@.is_suffix_of(p) {
        Some(GraphKind::Hyper)
    } else if ".pipeline"@.is_suffix_of(p) {
        Some(GraphKind::Pipeline)
    } else {
        None
    }
}

/// The kind of a file, by the end of its path.
pub fn graph_kind(p: &str) -> (r: Option<GraphKind>)
    ensures
        r == kind_of_path(p@),
{
    if text::ends_with(p, ".hyper") {
        Some(GraphKind::Hyper)
    } else if text::ends_with(p, ".pipeline") {
        Some(GraphKind::Pipeline)
    } else {
        None
    }
}

} // verus!

use vstd::prelude::*;

use crate::fulltext::{tokenize_spec, DocFreq, FullTextIndex, TermEntry};
use crate::ring::string_views;
use crate::text::edit_distance;
use vstd::utf8::{encode_utf8, is_char_boundary};

verus! {

/// How a fuzzy search matches terms: the largest distance, the number of
/// leading bytes that must agree (none when zero), and whether adjacent
/// transpositions count as one edit.
pub struct FuzzyConfig {
    pub max_distance: usize,
    pub max_edits: usize,
    pub prefix_length: usize,
    pub use_damerau: bool,
}

impl FuzzyConfig {
    /// Distance at most three, three leading bytes, plain edit distance.
    pub fn default() -> (c: Self)
        ensures
            c.max_distance == 3,
            c.max_edits == 2,
            c.prefix_length == 3,
            !c.use_damerau,
    {
        FuzzyConfig { max_distance: 3, max_edits: 2, prefix_length: 3, use_damerau: false }
    }
}

/// A document that a fuzzy search found through a term, with the term's
/// distance from the query token (zero for the token itself).
#[derive(Clone, Debug)]
pub struct FuzzyCandidate {
    pub key: String,
    pub term: String,
    pub distance: usize,
}

/// What `strsim::damerau_levenshtein` returns for two strings.
pub uninterp spec fn damerau_distance(a: Seq<char>, b: Seq<char>) -> nat;

/// Calls `strsim::levenshtein`, the least number of single-character
/// insertions, deletions and substitutions that turn one string into the
/// other, which is `edit_distance`.
#[verifier::external_body]
fn levenshtein_of(a: &str, b: &str) -> (d: usize)
    ensures
        d == edit_distance(a@, b@),
{
    strsim::levenshtein(a, b)
}

/// Calls `strsim::damerau_levenshtein`; the result is named, not stated.
#[verifier::external_body]
fn damerau_of(a: &str, b: &str) -> (d: usize)
    ensures
        d == damerau_distance(a@, b@),
{
    strsim::damerau_levenshtein(a, b)
}

/// The distance the configuration uses.
pub open spec fn term_distance(use_damerau: bool, a: Seq<char>, b: Seq<char>) -> nat {
    if use_damerau { damerau_distance(a, b) } else { edit_distance(a, b) }
}

/// The first `pl` bytes of the two strings agree (always, when `pl` is zero).
pub open spec fn prefix_ok(pl: nat, a: Seq<char>, b: Seq<char>) -> bool {
    pl == 0 || (encode_utf8(a).len() >= pl && encode_utf8(b).len() >= pl
        && encode_utf8(a).take(pl as int) == encode_utf8(b).take(pl as int))
}

/// Comparing the first `pl` bytes cuts no character in two.
pub open spec fn prefix_safe(pl: nat, a: Seq<char>, b: Seq<char>) -> bool {
    pl == 0 || !(encode_utf8(a).len() >= pl && encode_utf8(b).len() >= pl)
        || (is_char_boundary(encode_utf8(a), pl as int) && is_char_boundary(encode_utf8(b), pl as int))
}

/// Term `t` is a fuzzy match of token `q`: a positive distance within the
/// limit, and the leading bytes agree.
pub open spec fn near_term(c: FuzzyConfig, q: Seq<char>, t: Seq<char>) -> bool {
    let d = term_distance(c.use_damerau, q, t);
    0 < d <= c.max_distance && prefix_ok(c.prefix_length as nat, q, t)
}

/// A candidate as (document, term, distance).
pub open spec fn cand_view(x: FuzzyCandidate) -> (Seq<char>, Seq<char>, nat) {
    (x.key@, x.term@, x.distance as nat)
}

pub open spec fn cand_views(xs: Seq<FuzzyCandidate>) -> Seq<(Seq<char>, Seq<char>, nat)> {
    xs.map_values(|x: FuzzyCandidate| cand_view(x))
}

/// The documents of a term, each with the term and a distance.
pub open spec fn docs_with(ds: Seq<DocFreq>, t: Seq<char>, d: nat) -> Seq<(Seq<char>, Seq<char>, nat)> {
    ds.map_values(|x: DocFreq| (x.doc@, t, d))
}

/// The candidates for token `q` that come from the term equal to it.
pub open spec fn exact_cands(es: Seq<TermEntry>, q: Seq<char>) -> Seq<(Seq<char>, Seq<char>, nat)>
    decreases es.len(),
{
    if es.len() == 0 {
        seq![]
    } else if es.last().term@ == q {
        docs_with(es.last().docs@, q, 0)
    } else {
        exact_cands(es.drop_last(), q)
    }
}

/// The candidates for token `q` that come from terms near it, term by term.
pub open spec fn near_cands(es: Seq<TermEntry>, q: Seq<char>, c: FuzzyConfig) -> Seq<(Seq<char>, Seq<char>, nat)>
    decreases es.len(),
{
    if es.len() == 0 {
        seq![]
    } else {
        let e = es.last();
        near_cands(es.drop_last(), q, c) + if near_term(c, q, e.term@) {
            docs_with(e.docs@, e.term@, term_distance(c.use_damerau, q, e.term@))
        } else {
            seq![]
        }
    }
}

/// All candidates, token by token: those of the token itself, then those
/// of the terms near it.
pub open spec fn fuzzy_cands(es: Seq<TermEntry>, qs: Seq<Seq<char>>, c: FuzzyConfig) -> Seq<(Seq<char>, Seq<char>, nat)>
    decreases qs.len(),
{
    if qs.len() == 0 {
        seq![]
    } else {
        fuzzy_cands(es, qs.drop_last(), c) + exact_cands(es, qs.last()) + near_cands(es, qs.last(), c)
    }
}

/// No prefix comparison that the search makes cuts a character in two.
pub open spec fn fuzzy_safe(es: Seq<TermEntry>, qs: Seq<Seq<char>>, c: FuzzyConfig) -> bool {
    forall|i: int, j: int| 0 <= i < qs.len() && 0 <= j < es.len() && {
        let d = term_distance(c.use_damerau, qs[i], es[j].term@);
        0 < d <= c.max_distance
    } ==> prefix_safe(c.prefix_length as nat, #[trigger] qs[i], (#[trigger] es[j]).term@)
}

/// Whether the first `pl` bytes of `a` and `b` agree.
fn prefix_matches(a: &str, b: &str, pl: usize) -> (r: bool)
    requires
        prefix_safe(pl as nat, a@, b@),
    ensures
        r == prefix_ok(pl as nat, a@, b@),
{
    if pl == 0 {
        return true;
    }
    let la = a.as_bytes().len();
    let lb = b.as_bytes().len();
    if la >= pl && lb >= pl {
        let (pa, _ra) = a.split_at(pl);
        let (pb, _rb) = b.split_at(pl);
        let sa = pa.to_owned();
        let sb = pb.to_owned();
        proof {
            vstd::utf8::encode_utf8_decode_utf8(pa@);
            vstd::utf8::encode_utf8_decode_utf8(pb@);
            assert(encode_utf8(a@).take(pl as int) =~= encode_utf8(a@).subrange(0, pl as int));
            assert(encode_utf8(b@).take(pl as int) =~= encode_utf8(b@).subrange(0, pl as int));
        }
        sa == sb
    } else {
        false
    }
}

/// Appends the documents of `e`, each with `term` and distance `d`.
fn push_docs(out: &mut Vec<FuzzyCandidate>, ds: &Vec<DocFreq>, term: &String, d: usize)
    ensures
        cand_views(final(out)@) == cand_views(old(out)@) + docs_with(ds@, term@, d as nat),
{
    let ghost o = cand_views(out@);
    let mut i: usize = 0;
    while i < ds.len()
        invariant
            i <= ds@.len(),
            cand_views(out@) == o + docs_with(ds@, term@, d as nat).take(i as int),
        decreases ds.len() - i,
    {
        let ghost before = out@;
        let x = FuzzyCandidate { key: ds[i].doc.clone(), term: term.clone(), distance: d };
        out.push(x);
        proof {
            assert(cand_view(x) == (ds@[i as int].doc@, term@, d as nat));
            assert(cand_views(out@) =~= cand_views(before).push(cand_view(x)));
            assert(docs_with(ds@, term@, d as nat).take(i + 1) =~= docs_with(ds@, term@, d as nat).take(i as int).push(
                (ds@[i as int].doc@, term@, d as nat),
            ));
        }
        i += 1;
    }
    assert(docs_with(ds@, term@, d as nat).take(ds@.len() as int) =~= docs_with(ds@, term@, d as nat));
}


/// Appends the candidates of token `q` that come from the term equal to it.
fn push_exact(out: &mut Vec<FuzzyCandidate>, es: &Vec<TermEntry>, q: &String)
    ensures
        cand_views(final(out)@) == cand_views(old(out)@) + exact_cands(es@, q@),
{
    let mut j: usize = es.len();
    assert(es@.take(j as int) =~= es@);
    while j > 0
        invariant
            j <= es@.len(),
            exact_cands(es@, q@) == exact_cands(es@.take(j as int), q@),
            out@ == old(out)@,
        decreases j,
    {
        let ghost t = es@.take(j as int);
        assert(t.drop_last() =~= es@.take(j - 1));
        assert(t.last() == es@[j - 1]);
        if es[j - 1].term == *q {
            push_docs(out, &es[j - 1].docs, q, 0);
            return;
        }
        j -= 1;
    }
    assert(es@.take(0) =~= Seq::<TermEntry>::empty());
    assert(cand_views(out@) + Seq::<(Seq<char>, Seq<char>, nat)>::empty() =~= cand_views(out@));
}

/// Appends the candidates of token `q` that come from terms near it.
fn push_near(out: &mut Vec<FuzzyCandidate>, es: &Vec<TermEntry>, q: &String, cfg: &FuzzyConfig)
    requires
        forall|j: int| 0 <= j < es@.len() && {
            let d = term_distance(cfg.use_damerau, q@, es@[j].term@);
            0 < d <= cfg.max_distance
        } ==> prefix_safe(cfg.prefix_length as nat, q@, (#[trigger] es@[j]).term@),
    ensures
        cand_views(final(out)@) == cand_views(old(out)@) + near_cands(es@, q@, *cfg),
{
    let ghost base = cand_views(out@);
    let mut j: usize = 0;
    assert(es@.take(0) =~= Seq::<TermEntry>::empty());
    assert(base + near_cands(es@.take(0), q@, *cfg) =~= base);
    while j < es.len()
        invariant
            j <= es@.len(),
            forall|k: int| 0 <= k < es@.len() && {
                let d = term_distance(cfg.use_damerau, q@, es@[k].term@);
                0 < d <= cfg.max_distance
            } ==> prefix_safe(cfg.prefix_length as nat, q@, (#[trigger] es@[k]).term@),
            cand_views(out@) == base + near_cands(es@.take(j as int), q@, *cfg),
        decreases es.len() - j,
    {
        let ghost t = es@.take(j + 1);
        assert(t.drop_last() =~= es@.take(j as int));
        assert(t.last() == es@[j as int]);
        let e = &es[j];
        let d = if cfg.use_damerau {
            damerau_of(q.as_str(), e.term.as_str())
        } else {
            levenshtein_of(q.as_str(), e.term.as_str())
        };
        let ghost before = cand_views(out@);
        if d <= cfg.max_distance && d > 0 && prefix_matches(q.as_str(), e.term.as_str(), cfg.prefix_length) {
            push_docs(out, &e.docs, &e.term, d);
            proof {
                assert(before + docs_with(e.docs@, e.term@, d as nat) =~= base + near_cands(t, q@, *cfg));
            }
        } else {
            proof {
                assert(before =~= base + near_cands(t, q@, *cfg));
            }
        }
        j += 1;
    }
    assert(es@.take(es@.len() as int) =~= es@);
}

/// The candidates of a fuzzy search, in the order the search meets them:
/// for each query token, the documents of the term equal to it (distance
/// zero), then, term by term, the documents of each term whose distance
/// from the token is positive and within the limit and whose leading bytes
/// agree with the token's. A caller keeps, per document, the candidate it
/// scores best.
pub fn fuzzy_candidates(index: &FullTextIndex, query: &str, cfg: &FuzzyConfig) -> (r: Vec<FuzzyCandidate>)
    requires
        fuzzy_safe(index.entry_list(), tokenize_spec(index.options(), query@), *cfg),
    ensures
        cand_views(r@) == fuzzy_cands(index.entry_list(), tokenize_spec(index.options(), query@), *cfg),
{
    let tokens = index.tokenize_text(query);
    let es = index.entries();
    let ghost qs = tokenize_spec(index.options(), query@);
    let mut out: Vec<FuzzyCandidate> = Vec::new();
    let mut i: usize = 0;
    assert(qs.take(0) =~= Seq::<Seq<char>>::empty());
    assert(cand_views(out@) =~= Seq::<(Seq<char>, Seq<char>, nat)>::empty());
    while i < tokens.len()
        invariant
            string_views(tokens@) == qs,
            es@ == index.entry_list(),
            fuzzy_safe(es@, qs, *cfg),
            i <= tokens@.len(),
            cand_views(out@) == fuzzy_cands(es@, qs.take(i as int), *cfg),
        decreases tokens.len() - i,
    {
        let q = &tokens[i];
        let ghost t = qs.take(i + 1);
        assert(t.drop_last() =~= qs.take(i as int));
        assert(t.last() == q@);
        assert(qs[i as int] == q@);
        push_exact(&mut out, es, q);
        proof {
            assert forall|j: int| 0 <= j < es@.len() && {
                let d = term_distance(cfg.use_damerau, q@, es@[j].term@);
                0 < d <= cfg.max_distance
            } implies prefix_safe(cfg.prefix_length as nat, q@, (#[trigger] es@[j]).term@) by {
                assert(qs[i as int] == q@);
            }
        }
        push_near(&mut out, es, q, cfg);
        proof {
            assert(cand_views(out@) =~= fuzzy_cands(es@, t, *cfg));
        }
        i += 1;
    }
    assert(qs.take(tokens@.len() as int) =~= qs);
    out
}

} // verus!

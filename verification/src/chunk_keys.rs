use vstd::prelude::*;

use vstd::string::StringSliceAdditionalSpecFns;

use crate::advanced_chunking::{
    chunk_view, chunk_views, chunking, first_from, lemma_first_from, sentence_pieces, split_from, split_paragraphs, split_sentences,
    try_advanced_chunking, unplaced, AdvancedChunkingConfig, ChunkView, EnhancedTextChunk,
};
use crate::blob::{copy_opt_string, opt_view};
use crate::grok::pair_views;
use crate::chunking::{can_split, chunks_from, split_into_chunks, ChunkingConfig};
use crate::docinfo::{replace_all, replace_str};
use crate::docsearch::string_of_chars;
use crate::glob::{find_from, has_prefix, occurs_at};
use crate::text::{chars_of, nat_decimal, push_str, push_u64_decimal, str_starts_with};

verus! {

/// The id of chunk `idx` of a document: `<doc id>_chunk_<idx>`.
pub open spec fn chunk_id_of(doc: Seq<char>, idx: nat) -> Seq<char> {
    doc + "_chunk_"@ + nat_decimal(idx)
}

/// The key under which a chunk's vector is kept: `vector:<chunk id>`.
pub open spec fn vector_key_of(chunk: Seq<char>) -> Seq<char> {
    "vector:"@ + chunk
}

/// The document a chunk id belongs to: the text before the first
/// `_chunk_`, or the whole id when there is none.
pub open spec fn doc_of_chunk(chunk: Seq<char>) -> Seq<char> {
    match first_from(chunk, "_chunk_"@, 0) {
        Some(i) => chunk.subrange(0, i),
        None => chunk,
    }
}

/// The chunk id that a vector key names: none unless the key starts with
/// `vector:`; then the key with every `vector:` taken out.
pub open spec fn chunk_of_vector_key(key: Seq<char>) -> Option<Seq<char>> {
    if has_prefix(key, "vector:"@) {
        Some(replace_all(key, "vector:"@, seq![]))
    } else {
        None
    }
}

/// The key of a telemetry record's vector: `vector:telemetry:<id>`.
pub open spec fn telemetry_vector_key_of(id: Seq<char>) -> Seq<char> {
    "vector:telemetry:"@ + id
}

/// The chunk id `<doc id>_chunk_<idx>`.
pub fn chunk_id(doc_id: &str, idx: usize) -> (r: String)
    ensures
        r@ == chunk_id_of(doc_id@, idx as nat),
{
    let mut r = String::new();
    push_str(&mut r, doc_id);
    push_str(&mut r, "_chunk_");
    push_u64_decimal(&mut r, idx as u64);
    assert(r@ =~= chunk_id_of(doc_id@, idx as nat));
    r
}

/// The vector key `vector:<chunk id>`.
pub fn vector_key(chunk_id: &str) -> (r: String)
    ensures
        r@ == vector_key_of(chunk_id@),
{
    let mut r = String::new();
    push_str(&mut r, "vector:");
    push_str(&mut r, chunk_id);
    assert(r@ =~= vector_key_of(chunk_id@));
    r
}

/// The vector key `vector:telemetry:<id>` of a telemetry record.
pub fn telemetry_vector_key(id: &str) -> (r: String)
    ensures
        r@ == telemetry_vector_key_of(id@),
{
    let mut r = String::new();
    push_str(&mut r, "vector:telemetry:");
    push_str(&mut r, id);
    assert(r@ =~= telemetry_vector_key_of(id@));
    r
}

/// The document id of a chunk id: what comes before the first `_chunk_`.
pub fn chunk_document_id(chunk_id: &str) -> (r: String)
    ensures
        r@ == doc_of_chunk(chunk_id@),
{
    let cs = chars_of(chunk_id);
    let pat = chars_of("_chunk_");
    proof {
        lemma_first_from(cs@, pat@, 0);
    }
    match find_from(&cs, &pat, 0) {
        Some(i) => {
            proof {
                match first_from(cs@, pat@, 0) {
                    Some(j) => {
                        if j < i {
                            assert(occurs_at(cs@, pat@, j));
                        } else if i < j {
                            assert(!occurs_at(cs@, pat@, i as int));
                        }
                    },
                    None => {
                        assert(!occurs_at(cs@, pat@, i as int));
                    },
                }
            }
            let mut v: Vec<char> = Vec::new();
            let mut k: usize = 0;
            while k < i
                invariant
                    k <= i,
                    i <= cs@.len(),
                    v@ == cs@.subrange(0, k as int),
                decreases i - k,
            {
                v.push(cs[k]);
                k += 1;
                assert(v@ =~= cs@.subrange(0, k as int));
            }
            string_of_chars(&v)
        },
        None => {
            proof {
                if first_from(cs@, pat@, 0) is Some {
                    assert(occurs_at(cs@, pat@, first_from(cs@, pat@, 0)->0));
                }
            }
            string_of_chars(&cs)
        },
    }
}

/// The chunk id named by a vector key, or `None` when the key does not
/// start with `vector:`.
pub fn vector_key_chunk(key: &str) -> (r: Option<String>)
    ensures
        r matches Some(c) ==> chunk_of_vector_key(key@) == Some(c@),
        r is None ==> chunk_of_vector_key(key@) is None,
{
    if !str_starts_with(key, "vector:") {
        return None;
    }
    let cs = chars_of(key);
    let pat = chars_of("vector:");
    let rep: Vec<char> = Vec::new();
    proof {
        reveal_strlit("vector:");
    }
    let out = replace_str(&cs, &pat, &rep);
    assert(rep@ =~= Seq::<char>::empty());
    Some(string_of_chars(&out))
}

/// The telemetry id named by a telemetry vector key: the key with every
/// `vector:telemetry:` taken out.
pub fn telemetry_id_of_vector_key(key: &str) -> (r: String)
    ensures
        r@ == replace_all(key@, "vector:telemetry:"@, seq![]),
{
    let cs = chars_of(key);
    let pat = chars_of("vector:telemetry:");
    let rep: Vec<char> = Vec::new();
    proof {
        reveal_strlit("vector:telemetry:");
    }
    let out = replace_str(&cs, &pat, &rep);
    assert(rep@ =~= Seq::<char>::empty());
    string_of_chars(&out)
}

proof fn lemma_replace_absent(s: Seq<char>, pat: Seq<char>)
    requires
        pat.len() > 0,
        forall|k: int| 0 <= k ==> !#[trigger] occurs_at(s, pat, k),
    ensures
        replace_all(s, pat, seq![]) == s,
    decreases s.len(),
{
    if s.len() > 0 {
        if has_prefix(s, pat) {
            assert(s.subrange(0, pat.len() as int) =~= s.take(pat.len() as int));
            assert(occurs_at(s, pat, 0));
        }
        assert forall|k: int| 0 <= k implies !#[trigger] occurs_at(s.skip(1), pat, k) by {
            if occurs_at(s.skip(1), pat, k) {
                assert(s.subrange(k + 1, k + 1 + pat.len()) =~= s.skip(1).subrange(k, k + pat.len()));
                assert(occurs_at(s, pat, k + 1));
            }
        }
        lemma_replace_absent(s.skip(1), pat);
        assert(seq![s[0]] + s.skip(1) =~= s);
    }
}

/// A vector key made from a chunk id gives that chunk id back, for a chunk
/// id in which `vector:` does not occur.
pub proof fn lemma_vector_key_roundtrip(chunk: Seq<char>)
    requires
        forall|k: int| 0 <= k ==> !#[trigger] occurs_at(chunk, "vector:"@, k),
    ensures
        chunk_of_vector_key(vector_key_of(chunk)) == Some(chunk),
{
    let pat = "vector:"@;
    reveal_strlit("vector:");
    let key = vector_key_of(chunk);
    assert(key.take(pat.len() as int) =~= pat);
    assert(key.skip(pat.len() as int) =~= chunk);
    lemma_replace_absent(chunk, pat);
    assert(seq![] + chunk =~= chunk);
}

/// The document id read back from the id of one of its chunks is the
/// document id, for a document id such that no `_chunk_` starts inside it
/// in `<doc id>_chunk_`.
pub proof fn lemma_chunk_document_roundtrip(doc: Seq<char>, idx: nat)
    requires
        forall|k: int| 0 <= k < doc.len() ==> !#[trigger] occurs_at(doc + "_chunk_"@, "_chunk_"@, k),
    ensures
        doc_of_chunk(chunk_id_of(doc, idx)) == doc,
{
    let pat = "_chunk_"@;
    reveal_strlit("_chunk_");
    let s = chunk_id_of(doc, idx);
    let head = doc + pat;
    assert(s.subrange(doc.len() as int, (doc.len() + pat.len()) as int) =~= pat);
    assert(occurs_at(s, pat, doc.len() as int));
    lemma_first_from(s, pat, 0);
    match first_from(s, pat, 0) {
        Some(j) => {
            if j < doc.len() {
                assert(s.subrange(j, j + pat.len()) =~= head.subrange(j, j + pat.len()));
                assert(occurs_at(head, pat, j));
            }
            assert(s.subrange(0, doc.len() as int) =~= doc);
        },
        None => {},
    }
}

/// One chunk of a stored document: its id, text, shard, nominal byte span
/// and vector key.
pub struct TextChunk {
    pub chunk_id: String,
    pub text: String,
    pub shard: String,
    pub start_pos: usize,
    pub end_pos: usize,
    pub vector_key: String,
}

/// Where the chunks of a document go: the text is split as
/// `split_into_chunks` splits it; chunk `i` is named `<doc id>_chunk_<i>`,
/// its vector is kept under `vector:<chunk id>`, it is placed round robin
/// on shard `(start_counter + i) % n` of the `n` shards, and it is given
/// the span from `i * chunk_size` to `(i + 1) * chunk_size`.
pub fn plan_chunked_document(
    doc_id: &str,
    text: &str,
    config: &ChunkingConfig,
    shard_names: &Vec<String>,
    start_counter: usize,
) -> (r: Vec<TextChunk>)
    requires
        can_split(text, *config),
        shard_names@.len() > 0,
        start_counter + chunks_from(text.spec_bytes(), 0, *config).len() <= usize::MAX,
        chunks_from(text.spec_bytes(), 0, *config).len() * config.chunk_size <= usize::MAX,
    ensures
        r@.len() == chunks_from(text.spec_bytes(), 0, *config).len(),
        forall|i: int| 0 <= i < r@.len() ==> {
            &&& (#[trigger] r@[i]).chunk_id@ == chunk_id_of(doc_id@, i as nat)
            &&& r@[i].vector_key@ == vector_key_of(chunk_id_of(doc_id@, i as nat))
            &&& r@[i].shard@ == shard_names@[(start_counter + i) % (shard_names@.len() as int)]@
            &&& vstd::utf8::encode_utf8(r@[i].text@) == text.spec_bytes().subrange(
                chunks_from(text.spec_bytes(), 0, *config)[i].0,
                chunks_from(text.spec_bytes(), 0, *config)[i].1,
            )
            &&& r@[i].start_pos == i * config.chunk_size
            &&& r@[i].end_pos == (i + 1) * config.chunk_size
        },
{
    let texts = split_into_chunks(text, config);
    let ghost cs = chunks_from(text.spec_bytes(), 0, *config);
    let n = shard_names.len();
    let cnt = texts.len();
    let mut out: Vec<TextChunk> = Vec::new();
    let mut i: usize = 0;
    while i < cnt
        invariant
            cnt == texts@.len(),
            cnt == cs.len(),
            cs == chunks_from(text.spec_bytes(), 0, *config),
            n == shard_names@.len(),
            n > 0,
            start_counter + cnt <= usize::MAX,
            cnt * config.chunk_size <= usize::MAX,
            forall|k: int| 0 <= k < cnt ==> vstd::utf8::encode_utf8(#[trigger] texts@[k]@) == text.spec_bytes().subrange(cs[k].0, cs[k].1),
            i <= cnt,
            out@.len() == i,
            forall|k: int| 0 <= k < i ==> {
                &&& (#[trigger] out@[k]).chunk_id@ == chunk_id_of(doc_id@, k as nat)
                &&& out@[k].vector_key@ == vector_key_of(chunk_id_of(doc_id@, k as nat))
                &&& out@[k].shard@ == shard_names@[(start_counter + k) % (n as int)]@
                &&& vstd::utf8::encode_utf8(out@[k].text@) == text.spec_bytes().subrange(cs[k].0, cs[k].1)
                &&& out@[k].start_pos == k * config.chunk_size
                &&& out@[k].end_pos == (k + 1) * config.chunk_size
            },
        decreases cnt - i,
    {
        proof {
            assert((i + 1) * config.chunk_size <= cnt * config.chunk_size) by (nonlinear_arith)
                requires
                    i + 1 <= cnt,
            ;
            assert(i * config.chunk_size <= (i + 1) * config.chunk_size) by (nonlinear_arith);
        }
        let shard_idx = (start_counter + i) % n;
        let id = chunk_id(doc_id, i);
        let vkey = vector_key(id.as_str());
        let c = TextChunk {
            chunk_id: id,
            text: texts[i].clone(),
            shard: shard_names[shard_idx].clone(),
            start_pos: i * config.chunk_size,
            end_pos: (i + 1) * config.chunk_size,
            vector_key: vkey,
        };
        let ghost before = out@;
        out.push(c);
        proof {
            assert forall|k: int| 0 <= k < i + 1 implies {
                &&& (#[trigger] out@[k]).chunk_id@ == chunk_id_of(doc_id@, k as nat)
                &&& out@[k].vector_key@ == vector_key_of(chunk_id_of(doc_id@, k as nat))
                &&& out@[k].shard@ == shard_names@[(start_counter + k) % (n as int)]@
                &&& vstd::utf8::encode_utf8(out@[k].text@) == text.spec_bytes().subrange(cs[k].0, cs[k].1)
                &&& out@[k].start_pos == k * config.chunk_size
                &&& out@[k].end_pos == (k + 1) * config.chunk_size
            } by {
                if k < i {
                    assert(out@[k] == before[k]);
                }
            }
        }
        i += 1;
    }
    out
}

/// A chunk's view with its id replaced.
pub open spec fn with_id(v: ChunkView, id: Seq<char>) -> ChunkView {
    ChunkView {
        id,
        text: v.text,
        before: v.before,
        after: v.after,
        stemmed: v.stemmed,
        start_pos: v.start_pos,
        end_pos: v.end_pos,
        start_sentence: v.start_sentence,
        end_sentence: v.end_sentence,
        para: v.para,
    }
}

/// The text under which a chunk is indexed for keyword search: its text,
/// `\nContext before: ` and the text before it, `\nContext after: ` and the
/// text after it, and, with stemming, a line break and its stemmed words.
pub open spec fn search_text_of(stem: bool, e: EnhancedTextChunk) -> Seq<char> {
    let base = e.text@ + "\nContext before: "@ + e.context_before@ + "\nContext after: "@ + e.context_after@;
    if stem {
        base + "\n"@ + match e.stemmed_text {
            Some(st) => st@,
            None => Seq::<char>::empty(),
        }
    } else {
        base
    }
}

/// The text whose embedding is stored for a chunk: with stemming its
/// stemmed words (its text when it has none), else its text.
pub open spec fn embed_text_of(stem: bool, e: EnhancedTextChunk) -> Seq<char> {
    if stem {
        match e.stemmed_text {
            Some(st) => st@,
            None => e.text@,
        }
    } else {
        e.text@
    }
}

/// How an advanced chunked document is laid out over the shards: its
/// placed chunks, the text each is indexed under and the text whose
/// embedding is kept for it, its sentence and paragraph counts, and the
/// shard that keeps the document itself.
pub struct AdvancedDocPlan {
    pub chunks: Vec<EnhancedTextChunk>,
    pub search_texts: Vec<String>,
    pub embed_texts: Vec<String>,
    pub sentence_count: usize,
    pub paragraph_count: usize,
    pub doc_shard: String,
}

fn copy_pairs(v: &Vec<(String, String)>) -> (r: Vec<(String, String)>)
    ensures
        pair_views(r@) == pair_views(v@),
{
    let mut out: Vec<(String, String)> = Vec::new();
    let mut i: usize = 0;
    while i < v.len()
        invariant
            i <= v@.len(),
            pair_views(out@) == pair_views(v@.take(i as int)),
        decreases v@.len() - i,
    {
        let ghost before = out@;
        out.push((v[i].0.clone(), v[i].1.clone()));
        proof {
            assert(pair_views(out@) =~= pair_views(before).push((v@[i as int].0@, v@[i as int].1@)));
            assert(pair_views(v@.take(i + 1)) =~= pair_views(v@.take(i as int)).push((v@[i as int].0@, v@[i as int].1@)));
        }
        i += 1;
    }
    assert(v@.take(i as int) =~= v@);
    out
}

fn search_text(stem: bool, e: &EnhancedTextChunk) -> (s: String)
    ensures
        s@ == search_text_of(stem, *e),
{
    let mut s = String::new();
    push_str(&mut s, e.text.as_str());
    push_str(&mut s, "\nContext before: ");
    push_str(&mut s, e.context_before.as_str());
    push_str(&mut s, "\nContext after: ");
    push_str(&mut s, e.context_after.as_str());
    if stem {
        push_str(&mut s, "\n");
        match &e.stemmed_text {
            Some(st) => push_str(&mut s, st.as_str()),
            None => {},
        }
    }
    proof {
        if stem && e.stemmed_text is None {
            assert(s@ =~= search_text_of(stem, *e));
        }
    }
    s
}

fn embed_text(stem: bool, e: &EnhancedTextChunk) -> (s: String)
    ensures
        s@ == embed_text_of(stem, *e),
{
    if stem {
        match &e.stemmed_text {
            Some(st) => st.clone(),
            None => e.text.clone(),
        }
    } else {
        e.text.clone()
    }
}

/// Lays an advanced chunked document out over the shards: the text is cut
/// by `try_advanced_chunking`; chunk `i` gets the id `<doc>_chunk_<i>`, the
/// vector key `vector:<id>`, the shard `(start_counter + i)` modulo the
/// number of shards and, when the configuration preserves metadata, the
/// document's metadata; each chunk gets its search and embedding texts
/// (see `search_text_of`, `embed_text_of`); the sentences are counted as
/// the sentence splitter cuts the whole text, the paragraphs as the text
/// splits at blank lines, and the document goes to the shard of the
/// counter. `None` when the text cannot be chunked (see
/// `try_advanced_chunking`) or the counter would overflow.
pub fn plan_advanced_chunked_document(
    doc_id: &str,
    text: &str,
    config: &AdvancedChunkingConfig,
    metadata: &Vec<(String, String)>,
    shard_names: &Vec<String>,
    start_counter: usize,
) -> (r: Option<AdvancedDocPlan>)
    requires
        shard_names@.len() > 0,
    ensures
        r is Some <==> chunking(config, text@).ok && start_counter + chunking(config, text@).chunks.len() <= usize::MAX,
        r matches Some(p) ==> {
            let cs = chunking(config, text@).chunks;
            let n = shard_names@.len() as int;
            &&& p.chunks@.len() == cs.len()
            &&& p.search_texts@.len() == cs.len()
            &&& p.embed_texts@.len() == cs.len()
            &&& forall|i: int| #![trigger p.chunks@[i]] 0 <= i < cs.len() ==> {
                &&& chunk_view(p.chunks@[i]) == with_id(cs[i], chunk_id_of(doc_id@, i as nat))
                &&& p.chunks@[i].chunk_id@ == chunk_id_of(doc_id@, i as nat)
                &&& p.chunks@[i].vector_key@ == vector_key_of(chunk_id_of(doc_id@, i as nat))
                &&& p.chunks@[i].shard@ == shard_names@[(start_counter + i) % n]@
                &&& pair_views(p.chunks@[i].metadata@) == if config.preserve_metadata {
                    pair_views(metadata@)
                } else {
                    Seq::<(Seq<char>, Seq<char>)>::empty()
                }
                &&& p.search_texts@[i]@ == search_text_of(config.enable_stemming, p.chunks@[i])
                &&& p.embed_texts@[i]@ == embed_text_of(config.enable_stemming, p.chunks@[i])
            }
            &&& p.sentence_count == sentence_pieces(text@).len()
            &&& p.paragraph_count == split_from(text@, "\n\n"@, 0).len()
            &&& p.doc_shard@ == shard_names@[(start_counter as int) % n]@
        },
{
    let v = match try_advanced_chunking(text, config) {
        Some(v) => v,
        None => return None,
    };
    if start_counter > usize::MAX - v.len() {
        return None;
    }
    let ghost cs = chunking(config, text@).chunks;
    let n = shard_names.len();
    let mut chunks: Vec<EnhancedTextChunk> = Vec::new();
    let mut search_texts: Vec<String> = Vec::new();
    let mut embed_texts: Vec<String> = Vec::new();
    let mut i: usize = 0;
    while i < v.len()
        invariant
            chunk_views(v@) == cs,
            forall|k: int| 0 <= k < v@.len() ==> unplaced(#[trigger] v@[k]),
            n == shard_names@.len(),
            n > 0,
            start_counter + v@.len() <= usize::MAX,
            i <= v@.len(),
            chunks@.len() == i,
            search_texts@.len() == i,
            embed_texts@.len() == i,
            forall|k: int| #![trigger chunks@[k]] 0 <= k < i ==> {
                &&& chunk_view(chunks@[k]) == with_id(cs[k], chunk_id_of(doc_id@, k as nat))
                &&& chunks@[k].chunk_id@ == chunk_id_of(doc_id@, k as nat)
                &&& chunks@[k].vector_key@ == vector_key_of(chunk_id_of(doc_id@, k as nat))
                &&& chunks@[k].shard@ == shard_names@[(start_counter + k) % (n as int)]@
                &&& pair_views(chunks@[k].metadata@) == if config.preserve_metadata {
                    pair_views(metadata@)
                } else {
                    Seq::<(Seq<char>, Seq<char>)>::empty()
                }
                &&& search_texts@[k]@ == search_text_of(config.enable_stemming, chunks@[k])
                &&& embed_texts@[k]@ == embed_text_of(config.enable_stemming, chunks@[k])
            },
        decreases v@.len() - i,
    {
        let e = &v[i];
        assert(chunk_view(v@[i as int]) == cs[i as int]);
        assert(unplaced(v@[i as int]));
        let id = chunk_id(doc_id, i);
        let vkey = vector_key(id.as_str());
        let md = if config.preserve_metadata {
            copy_pairs(metadata)
        } else {
            copy_pairs(&e.metadata)
        };
        proof {
            if !config.preserve_metadata {
                assert(pair_views(e.metadata@) =~= Seq::<(Seq<char>, Seq<char>)>::empty());
            }
        }
        let placed = EnhancedTextChunk {
            chunk_id: id,
            text: e.text.clone(),
            context_before: e.context_before.clone(),
            context_after: e.context_after.clone(),
            stemmed_text: copy_opt_string(&e.stemmed_text),
            shard: shard_names[(start_counter + i) % n].clone(),
            start_pos: e.start_pos,
            end_pos: e.end_pos,
            start_sentence: e.start_sentence,
            end_sentence: e.end_sentence,
            paragraph_index: e.paragraph_index,
            vector_key: vkey,
            metadata: md,
        };
        proof {
            assert(opt_view(placed.stemmed_text) == opt_view(e.stemmed_text));
            assert(chunk_view(placed) == with_id(cs[i as int], chunk_id_of(doc_id@, i as nat)));
        }
        let st = search_text(config.enable_stemming, &placed);
        let et = embed_text(config.enable_stemming, &placed);
        chunks.push(placed);
        search_texts.push(st);
        embed_texts.push(et);
        i += 1;
    }
    let sentence_count = split_sentences(text).len();
    let paragraph_count = split_paragraphs(text).len();
    let doc_shard = shard_names[start_counter % n].clone();
    Some(AdvancedDocPlan { chunks, search_texts, embed_texts, sentence_count, paragraph_count, doc_shard })
}

} // verus!

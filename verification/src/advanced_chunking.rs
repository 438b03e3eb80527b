use vstd::prelude::*;

use crate::language::StemmingLanguage;
use crate::docsearch::{split_whitespace_words, string_of_chars, ws_words};
use crate::glob::{find_from, occurs_at};
use crate::json::{join, join_strings};
use crate::text::{chars_of, push_str, push_u64_decimal};
use crate::chunking::byte_slice;
use vstd::string::StringSliceAdditionalSpecFns;
use crate::ring::string_views;
use crate::text::nat_decimal;
use vstd::utf8::{encode_utf8, is_char_boundary};

verus! {

/// How a text is cut into chunks along sentence and paragraph boundaries,
/// with some text of context kept on each side of a chunk. Sizes are in
/// bytes.
pub struct AdvancedChunkingConfig {
    pub chunk_size: usize,
    pub chunk_overlap: usize,
    pub min_chunk_size: usize,
    pub break_on_sentences: bool,
    pub break_on_paragraphs: bool,
    pub preserve_metadata: bool,
    pub context_before_chars: usize,
    pub context_after_chars: usize,
    pub enable_stemming: bool,
    pub language: StemmingLanguage,
}

impl AdvancedChunkingConfig {
    /// Chunks of 512 bytes overlapping by 50, at least 100, cut at sentences
    /// and paragraphs, with 100 bytes of context each side, no stemming.
    pub fn default() -> (c: Self)
        ensures
            c.chunk_size == 512,
            c.chunk_overlap == 50,
            c.min_chunk_size == 100,
            c.break_on_sentences,
            c.break_on_paragraphs,
            c.preserve_metadata,
            c.context_before_chars == 100,
            c.context_after_chars == 100,
            !c.enable_stemming,
            c.language == StemmingLanguage::English,
    {
        AdvancedChunkingConfig {
            chunk_size: 512,
            chunk_overlap: 50,
            min_chunk_size: 100,
            break_on_sentences: true,
            break_on_paragraphs: true,
            preserve_metadata: true,
            context_before_chars: 100,
            context_after_chars: 100,
            enable_stemming: false,
            language: StemmingLanguage::English,
        }
    }
}

/// A chunk of text with the text around it and where it lies.
pub struct EnhancedTextChunk {
    pub chunk_id: String,
    pub text: String,
    pub context_before: String,
    pub context_after: String,
    pub stemmed_text: Option<String>,
    pub shard: String,
    pub start_pos: usize,
    pub end_pos: usize,
    pub start_sentence: usize,
    pub end_sentence: usize,
    pub paragraph_index: usize,
    pub vector_key: String,
    pub metadata: Vec<(String, String)>,
}

/// What the sentence splitter (the expression `[.!?]+[\s\n]+` of the
/// `regex` crate, splitting) gives for a paragraph.
pub uninterp spec fn sentence_pieces(p: Seq<char>) -> Seq<Seq<char>>;

/// What the Snowball stemmer of `rust_stemmers` gives for a word, the
/// language given by its position in `StemmingLanguage`.
pub uninterp spec fn snowball_stem(lang: nat, w: Seq<char>) -> Seq<char>;

/// A chunk as plain data; its texts by their UTF-8 bytes.
pub ghost struct ChunkView {
    pub id: Seq<char>,
    pub text: Seq<u8>,
    pub before: Seq<u8>,
    pub after: Seq<u8>,
    pub stemmed: Option<Seq<char>>,
    pub start_pos: int,
    pub end_pos: int,
    pub start_sentence: int,
    pub end_sentence: int,
    pub para: int,
}

/// The chunks so far, the running byte position and sentence count, and
/// whether every step so far stays clear of overflow and of cutting a
/// character.
pub ghost struct Run {
    pub chunks: Seq<ChunkView>,
    pub gpos: int,
    pub sidx: int,
    pub ok: bool,
}

/// Within a paragraph: the chunk being filled (its bytes), where it starts
/// and the sentence it starts at.
pub ghost struct Fill {
    pub cur: Seq<u8>,
    pub start: int,
    pub csent: int,
}


/// The position of a language in `StemmingLanguage`.
pub open spec fn lang_code(l: StemmingLanguage) -> nat {
    match l {
        StemmingLanguage::English => 0,
        StemmingLanguage::Russian => 1,
        StemmingLanguage::German => 2,
        StemmingLanguage::French => 3,
        StemmingLanguage::Spanish => 4,
        StemmingLanguage::Italian => 5,
        StemmingLanguage::Dutch => 6,
        StemmingLanguage::Portuguese => 7,
    }
}

/// Splits a paragraph into sentences with the `regex` crate: the pieces
/// between the matches of `[.!?]+[\s\n]+`. The pieces are named, not
/// stated.
#[verifier::external_body]
pub(crate) fn split_sentences(p: &str) -> (r: Vec<String>)
    ensures
        string_views(r@) == sentence_pieces(p@),
{
    regex::Regex::new(r"[.!?]+[\s\n]+").unwrap().split(p).map(|s| s.to_owned()).collect()
}

/// Stems one word with the Snowball stemmer of `rust_stemmers` for the
/// language. The result is named, not stated.
#[verifier::external_body]
fn stem_in(lang: StemmingLanguage, word: &str) -> (r: String)
    ensures
        r@ == snowball_stem(lang_code(lang), word@),
{
    let algorithm = match lang {
        StemmingLanguage::English => rust_stemmers::Algorithm::English,
        StemmingLanguage::Russian => rust_stemmers::Algorithm::Russian,
        StemmingLanguage::German => rust_stemmers::Algorithm::German,
        StemmingLanguage::French => rust_stemmers::Algorithm::French,
        StemmingLanguage::Spanish => rust_stemmers::Algorithm::Spanish,
        StemmingLanguage::Italian => rust_stemmers::Algorithm::Italian,
        StemmingLanguage::Dutch => rust_stemmers::Algorithm::Dutch,
        StemmingLanguage::Portuguese => rust_stemmers::Algorithm::Portuguese,
    };
    rust_stemmers::Stemmer::create(algorithm).stem(word).to_string()
}


/// The first position at or after `i` where `pat` occurs in `s`.
pub open spec fn first_from(s: Seq<char>, pat: Seq<char>, i: int) -> Option<int>
    decreases s.len() - i,
{
    if i < 0 || i + pat.len() > s.len() {
        None
    } else if pat.len() == 0 || s.subrange(i, i + pat.len()) == pat {
        Some(i)
    } else {
        first_from(s, pat, i + 1)
    }
}

/// An occurrence found at or after `i` lies within `s`.
pub proof fn lemma_first_from(s: Seq<char>, pat: Seq<char>, i: int)
    requires
        0 <= i,
    ensures
        match first_from(s, pat, i) {
            Some(j) => i <= j && occurs_at(s, pat, j) && forall|k: int| i <= k < j ==> !#[trigger] occurs_at(s, pat, k),
            None => forall|k: int| i <= k ==> !#[trigger] occurs_at(s, pat, k),
        },
    decreases s.len() - i,
{
    if i + pat.len() > s.len() {
    } else if pat.len() == 0 || s.subrange(i, i + pat.len()) == pat {
        if pat.len() == 0 {
            assert(s.subrange(i, i) =~= pat);
        }
    } else {
        lemma_first_from(s, pat, i + 1);
    }
}

/// The pieces of `s` from `pos` on between the occurrences of the nonempty
/// `pat`, taken leftmost first without overlap (`str::split`).
pub open spec fn split_from(s: Seq<char>, pat: Seq<char>, pos: int) -> Seq<Seq<char>>
    decreases s.len() - pos,
{
    if pat.len() == 0 || pos < 0 || pos > s.len() {
        seq![]
    } else {
        match first_from(s, pat, pos) {
            None => seq![s.subrange(pos, s.len() as int)],
            Some(i) => {
                proof {
                    lemma_first_from(s, pat, pos);
                }
                seq![s.subrange(pos, i)] + split_from(s, pat, i + pat.len())
            },
        }
    }
}

/// The paragraphs of a text: the pieces between blank lines (`"\n\n"`), or
/// the whole text.
pub open spec fn paragraphs(c: &AdvancedChunkingConfig, t: Seq<char>) -> Seq<Seq<char>> {
    if c.break_on_paragraphs { split_from(t, "\n\n"@, 0) } else { seq![t] }
}

/// The sentences of a paragraph, or the whole paragraph.
pub open spec fn sentences(c: &AdvancedChunkingConfig, p: Seq<char>) -> Seq<Seq<char>> {
    if c.break_on_sentences { sentence_pieces(p) } else { seq![p] }
}

/// The stemmed text of a chunk: its whitespace-separated words, each
/// stemmed, joined by single spaces.
pub open spec fn stemmed(c: &AdvancedChunkingConfig, text: Seq<u8>) -> Option<Seq<char>> {
    if c.enable_stemming {
        Some(crate::json::join(
            crate::docsearch::ws_words(vstd::utf8::decode_utf8(text)).map_values(|w: Seq<char>| snowball_stem(lang_code(c.language), w)),
            " "@,
        ))
    } else {
        None
    }
}

/// Where a chunk of `len` bytes starting at `start` ends.
pub open spec fn end_of(start: int, len: int) -> int {
    start + len
}

/// The start of the context before a chunk starting at `start`.
pub open spec fn ctx_start(c: &AdvancedChunkingConfig, start: int) -> int {
    if start > c.context_before_chars { start - c.context_before_chars } else { 0 }
}

/// The end of the context after a chunk ending at `end`.
pub open spec fn ctx_end(c: &AdvancedChunkingConfig, tlen: int, end: int) -> int {
    if end + c.context_after_chars < tlen { end + c.context_after_chars } else { tlen }
}

/// Making a chunk of `cur` at `start` stays within a `usize` and slices the
/// text (bytes `tb`) only at character boundaries.
pub open spec fn chunk_ok(c: &AdvancedChunkingConfig, tb: Seq<u8>, cur: Seq<u8>, start: int) -> bool {
    let end = end_of(start, cur.len() as int);
    let cs = ctx_start(c, start);
    let ce = ctx_end(c, tb.len() as int, end);
    &&& end <= usize::MAX
    &&& end + c.context_after_chars <= usize::MAX
    &&& cs < start ==> start <= tb.len() && is_char_boundary(tb, cs) && is_char_boundary(tb, start)
    &&& end < ce ==> is_char_boundary(tb, end) && is_char_boundary(tb, ce)
}

/// The chunk of `cur` at `start`, from sentence `csent` to `sidx`, the
/// `n`-th chunk, in paragraph `para`.
pub open spec fn make_chunk(
    c: &AdvancedChunkingConfig,
    tb: Seq<u8>,
    cur: Seq<u8>,
    start: int,
    csent: int,
    sidx: int,
    para: int,
    n: nat,
) -> ChunkView {
    let end = end_of(start, cur.len() as int);
    let cs = ctx_start(c, start);
    let ce = ctx_end(c, tb.len() as int, end);
    ChunkView {
        id: "chunk_"@ + nat_decimal(para as nat) + "_"@ + nat_decimal(n),
        text: cur,
        before: if cs < start { tb.subrange(cs, start) } else { seq![] },
        after: if end < ce { tb.subrange(end, ce) } else { seq![] },
        stemmed: stemmed(c, cur),
        start_pos: start,
        end_pos: end,
        start_sentence: csent,
        end_sentence: sidx,
        para,
    }
}

/// Where the next chunk starts after `cur` is cut: `chunk_overlap` bytes
/// of it are kept (all of it when shorter).
pub open spec fn overlap_start(c: &AdvancedChunkingConfig, cur: Seq<u8>) -> int {
    if cur.len() > c.chunk_overlap { cur.len() - c.chunk_overlap } else { 0 }
}

/// One sentence of paragraph `para`: when it would overflow a nonempty
/// chunk, the chunk is cut and its overlap starts the next; then the
/// sentence (and `". "` when breaking at sentences) is added, and the
/// position moves on by the sentence and two bytes.
pub open spec fn sentence_step(c: &AdvancedChunkingConfig, tb: Seq<u8>, para: int, st: (Run, Fill), s: Seq<char>) -> (Run, Fill) {
    let (r, f) = st;
    let sb = encode_utf8(s);
    let add_ok = f.cur.len() + sb.len() <= usize::MAX;
    let flush = f.cur.len() + sb.len() > c.chunk_size && f.cur.len() > 0;
    let os = overlap_start(c, f.cur);
    let (chunks, cur, start, csent, flush_ok) = if flush {
        let end = end_of(f.start, f.cur.len() as int);
        let kept = f.cur.subrange(os, f.cur.len() as int);
        (
            r.chunks.push(make_chunk(c, tb, f.cur, f.start, f.csent, r.sidx, para, r.chunks.len())),
            kept,
            end - kept.len(),
            r.sidx,
            chunk_ok(c, tb, f.cur, f.start) && is_char_boundary(f.cur, os),
        )
    } else {
        (r.chunks, f.cur, f.start, f.csent, true)
    };
    let cur2 = if c.break_on_sentences { cur + sb + seq![46u8, 32u8] } else { cur + sb };
    (
        Run {
            chunks,
            gpos: r.gpos + sb.len() + 2,
            sidx: r.sidx + 1,
            ok: r.ok && add_ok && flush_ok && r.gpos + sb.len() + 2 <= usize::MAX && r.sidx + 1 <= usize::MAX,
        },
        Fill { cur: cur2, start, csent },
    )
}

/// The sentences `ss` of paragraph `para`, one step each.
pub open spec fn sentences_fold(c: &AdvancedChunkingConfig, tb: Seq<u8>, para: int, st: (Run, Fill), ss: Seq<Seq<char>>) -> (Run, Fill)
    decreases ss.len(),
{
    if ss.len() == 0 {
        st
    } else {
        sentence_step(c, tb, para, sentences_fold(c, tb, para, st, ss.drop_last()), ss.last())
    }
}

/// Paragraph `pi`: its sentences, then the last chunk when it is not empty
/// and not too short, then two bytes for the blank line.
pub open spec fn para_step(c: &AdvancedChunkingConfig, tb: Seq<u8>, r: Run, p: Seq<char>, pi: int) -> Run {
    let (r1, f) = sentences_fold(c, tb, pi, (r, fill0(r)), sentences(c, p));
    let last = f.cur.len() > 0 && f.cur.len() >= c.min_chunk_size;
    let chunks = if last { r1.chunks.push(make_chunk(c, tb, f.cur, f.start, f.csent, r1.sidx, pi, r1.chunks.len())) } else { r1.chunks };
    Run {
        chunks,
        gpos: r1.gpos + 2,
        sidx: r1.sidx,
        ok: r1.ok && (last ==> chunk_ok(c, tb, f.cur, f.start)) && r1.gpos + 2 <= usize::MAX,
    }
}

/// An empty chunk starting where the run stands.
pub open spec fn fill0(r: Run) -> Fill {
    Fill { cur: seq![], start: r.gpos, csent: r.sidx }
}

/// The paragraphs `ps`, one step each, numbered from zero.
pub open spec fn paras_fold(c: &AdvancedChunkingConfig, tb: Seq<u8>, r: Run, ps: Seq<Seq<char>>) -> Run
    decreases ps.len(),
{
    if ps.len() == 0 {
        r
    } else {
        para_step(c, tb, paras_fold(c, tb, r, ps.drop_last()), ps.last(), ps.len() - 1)
    }
}

/// The chunks of a text, and whether the chunking stays clear of overflow
/// and of cutting a character.
pub open spec fn chunking(c: &AdvancedChunkingConfig, t: Seq<char>) -> Run {
    paras_fold(c, encode_utf8(t), run0(), paragraphs(c, t))
}

/// No chunks yet, at position and sentence zero.
pub open spec fn run0() -> Run {
    Run { chunks: seq![], gpos: 0, sidx: 0, ok: true }
}

/// The run after the first `pi` paragraphs of `t`.
pub open spec fn run_before(c: &AdvancedChunkingConfig, t: Seq<char>, pi: int) -> Run {
    paras_fold(c, encode_utf8(t), run0(), paragraphs(c, t).take(pi))
}

/// A chunk as plain data.
pub open spec fn chunk_view(e: EnhancedTextChunk) -> ChunkView {
    ChunkView {
        id: e.chunk_id@,
        text: encode_utf8(e.text@),
        before: encode_utf8(e.context_before@),
        after: encode_utf8(e.context_after@),
        stemmed: match e.stemmed_text {
            Some(st) => Some(st@),
            None => None,
        },
        start_pos: e.start_pos as int,
        end_pos: e.end_pos as int,
        start_sentence: e.start_sentence as int,
        end_sentence: e.end_sentence as int,
        para: e.paragraph_index as int,
    }
}

/// The chunks as plain data.
pub open spec fn chunk_views(v: Seq<EnhancedTextChunk>) -> Seq<ChunkView> {
    v.map_values(|e: EnhancedTextChunk| chunk_view(e))
}

/// A chunk not yet placed: no shard, no vector key, no metadata.
pub open spec fn unplaced(e: EnhancedTextChunk) -> bool {
    e.shard@.len() == 0 && e.vector_key@.len() == 0 && e.metadata@.len() == 0
}

proof fn lemma_sentences_ok_prefix(
    c: &AdvancedChunkingConfig,
    tb: Seq<u8>,
    para: int,
    st: (Run, Fill),
    ss: Seq<Seq<char>>,
    k: int,
)
    requires
        0 <= k <= ss.len(),
        sentences_fold(c, tb, para, st, ss).0.ok,
    ensures
        sentences_fold(c, tb, para, st, ss.take(k)).0.ok,
    decreases ss.len(),
{
    if k == ss.len() {
        assert(ss.take(k) =~= ss);
    } else {
        lemma_sentences_ok_prefix(c, tb, para, st, ss.drop_last(), k);
        assert(ss.drop_last().take(k) =~= ss.take(k));
    }
}

proof fn lemma_para_step_ok(c: &AdvancedChunkingConfig, tb: Seq<u8>, r: Run, p: Seq<char>, pi: int)
    requires
        para_step(c, tb, r, p, pi).ok,
    ensures
        r.ok,
{
    lemma_sentences_ok_prefix(c, tb, pi, (r, fill0(r)), sentences(c, p), 0);
    assert(sentences(c, p).take(0) =~= Seq::<Seq<char>>::empty());
}

proof fn lemma_paras_ok_prefix(c: &AdvancedChunkingConfig, tb: Seq<u8>, r: Run, ps: Seq<Seq<char>>, k: int)
    requires
        0 <= k <= ps.len(),
        paras_fold(c, tb, r, ps).ok,
    ensures
        paras_fold(c, tb, r, ps.take(k)).ok,
    decreases ps.len(),
{
    if k == ps.len() {
        assert(ps.take(k) =~= ps);
    } else {
        lemma_para_step_ok(c, tb, paras_fold(c, tb, r, ps.drop_last()), ps.last(), ps.len() - 1);
        lemma_paras_ok_prefix(c, tb, r, ps.drop_last(), k);
        assert(ps.drop_last().take(k) =~= ps.take(k));
    }
}

/// The run after paragraph `pi` is one paragraph step on the run before it.
proof fn lemma_run_next(c: &AdvancedChunkingConfig, t: Seq<char>, pi: int)
    requires
        0 <= pi < paragraphs(c, t).len(),
    ensures
        run_before(c, t, pi + 1) == para_step(c, encode_utf8(t), run_before(c, t, pi), paragraphs(c, t)[pi], pi),
{
    let ps = paragraphs(c, t);
    assert(ps.take(pi + 1).drop_last() =~= ps.take(pi));
    assert(ps.take(pi + 1).last() == ps[pi]);
}

/// A paragraph step that fails makes the whole chunking fail.
proof fn lemma_para_fails(c: &AdvancedChunkingConfig, t: Seq<char>, pi: int)
    requires
        0 <= pi < paragraphs(c, t).len(),
        !run_before(c, t, pi + 1).ok,
    ensures
        !chunking(c, t).ok,
{
    let ps = paragraphs(c, t);
    if chunking(c, t).ok {
        lemma_paras_ok_prefix(c, encode_utf8(t), run0(), ps, pi + 1);
    }
}

/// A sentence step that fails makes the whole chunking fail.
proof fn lemma_sentence_fails(c: &AdvancedChunkingConfig, t: Seq<char>, pi: int, k: int)
    requires
        0 <= pi < paragraphs(c, t).len(),
        0 <= k <= sentences(c, paragraphs(c, t)[pi]).len(),
        !sentences_fold(
            c,
            encode_utf8(t),
            pi,
            (run_before(c, t, pi), fill0(run_before(c, t, pi))),
            sentences(c, paragraphs(c, t)[pi]).take(k),
        ).0.ok,
    ensures
        !chunking(c, t).ok,
{
    let tb = encode_utf8(t);
    let r = run_before(c, t, pi);
    let ss = sentences(c, paragraphs(c, t)[pi]);
    if sentences_fold(c, tb, pi, (r, fill0(r)), ss).0.ok {
        lemma_sentences_ok_prefix(c, tb, pi, (r, fill0(r)), ss, k);
    }
    lemma_run_next(c, t, pi);
    lemma_para_fails(c, t, pi);
}


proof fn lemma_encode_concat(a: Seq<char>, b: Seq<char>)
    ensures
        encode_utf8(a + b) == encode_utf8(a) + encode_utf8(b),
    decreases a.len(),
{
    if a.len() == 0 {
        assert(a + b =~= b);
        assert(encode_utf8(a) + encode_utf8(b) =~= encode_utf8(b));
    } else {
        assert((a + b)[0] == a[0]);
        assert((a + b).drop_first() =~= a.drop_first() + b);
        lemma_encode_concat(a.drop_first(), b);
        assert(encode_utf8(a + b) =~= encode_utf8(a) + encode_utf8(b));
    }
}

proof fn lemma_encode_empty(s: Seq<char>)
    ensures
        (encode_utf8(s).len() == 0) == (s.len() == 0),
{
    vstd::utf8::encode_utf8_decode_utf8(s);
    if encode_utf8(s).len() == 0 {
        assert(encode_utf8(s) =~= Seq::<u8>::empty());
        assert(vstd::utf8::decode_utf8(Seq::<u8>::empty()) == Seq::<char>::empty());
    }
}

/// The characters `cs[a..b]` as a string.
fn chars_range(cs: &Vec<char>, a: usize, b: usize) -> (r: String)
    requires
        a <= b <= cs@.len(),
    ensures
        r@ == cs@.subrange(a as int, b as int),
{
    let mut v: Vec<char> = Vec::new();
    let mut i = a;
    while i < b
        invariant
            a <= i <= b,
            b <= cs@.len(),
            v@ == cs@.subrange(a as int, i as int),
        decreases b - i,
    {
        v.push(cs[i]);
        i += 1;
        assert(v@ =~= cs@.subrange(a as int, i as int));
    }
    string_of_chars(&v)
}

/// The pieces of `text` between blank lines (`str::split` at `"\n\n"`).
pub fn split_paragraphs(text: &str) -> (r: Vec<String>)
    ensures
        string_views(r@) == split_from(text@, "\n\n"@, 0),
{
    let cs = chars_of(text);
    let mut pat: Vec<char> = Vec::new();
    pat.push('\n');
    pat.push('\n');
    proof {
        reveal_strlit("\n\n");
        assert(pat@ =~= "\n\n"@);
    }
    let mut out: Vec<String> = Vec::new();
    let mut pos: usize = 0;
    let n: usize = cs.len();
    assert(string_views(out@) + split_from(cs@, pat@, 0) =~= split_from(cs@, pat@, 0));
    loop
        invariant
            cs@ == text@,
            pat@ == "\n\n"@,
            pat@.len() == 2,
            pos <= cs@.len(),
            n == cs@.len(),
            string_views(out@) + split_from(cs@, pat@, pos as int) == split_from(cs@, pat@, 0),
        decreases cs@.len() - pos,
    {
        let f = find_from(&cs, &pat, pos);
        proof {
            lemma_first_from(cs@, pat@, pos as int);
        }
        match f {
            Some(i) => {
                assert(i + 2 <= n);
                proof {
                    if first_from(cs@, pat@, pos as int) != Some(i as int) {
                        match first_from(cs@, pat@, pos as int) {
                            Some(j) => {
                                if j < i {
                                    assert(occurs_at(cs@, pat@, j));
                                } else {
                                    assert(!occurs_at(cs@, pat@, i as int));
                                }
                            },
                            None => {
                                assert(!occurs_at(cs@, pat@, i as int));
                            },
                        }
                    }
                }
                let piece = chars_range(&cs, pos, i);
                let ghost before = out@;
                out.push(piece);
                proof {
                    assert(string_views(out@) =~= string_views(before).push(piece@));
                    assert(split_from(cs@, pat@, pos as int) == seq![cs@.subrange(pos as int, i as int)] + split_from(cs@, pat@, i + 2));
                    assert(string_views(out@) + split_from(cs@, pat@, i + 2) =~= string_views(before) + split_from(cs@, pat@, pos as int));
                }
                pos = i + 2;
            },
            None => {
                proof {
                    if first_from(cs@, pat@, pos as int) is Some {
                        let j = first_from(cs@, pat@, pos as int)->0;
                        assert(occurs_at(cs@, pat@, j));
                    }
                }
                let piece = chars_range(&cs, pos, cs.len());
                let ghost before = out@;
                out.push(piece);
                proof {
                    assert(string_views(out@) =~= string_views(before).push(piece@));
                    assert(split_from(cs@, pat@, pos as int) == seq![cs@.subrange(pos as int, cs@.len() as int)]);
                    assert(string_views(out@) =~= string_views(before) + split_from(cs@, pat@, pos as int));
                }
                return out;
            },
        }
    }
}

/// The stemmed text of a chunk.
fn stem_text(text: &String, lang: StemmingLanguage) -> (r: String)
    ensures
        r@ == join(ws_words(text@).map_values(|w: Seq<char>| snowball_stem(lang_code(lang), w)), " "@),
{
    let words = split_whitespace_words(text.as_str());
    let ghost ws = ws_words(text@);
    let mut stems: Vec<String> = Vec::new();
    let mut i: usize = 0;
    while i < words.len()
        invariant
            string_views(words@) == ws,
            i <= words@.len(),
            stems@.len() == i,
            forall|j: int| 0 <= j < i ==> (#[trigger] stems@[j])@ == snowball_stem(lang_code(lang), ws[j]),
        decreases words.len() - i,
    {
        let s = stem_in(lang, words[i].as_str());
        assert(ws[i as int] == words@[i as int]@);
        stems.push(s);
        i += 1;
    }
    assert(string_views(stems@) =~= ws.map_values(|w: Seq<char>| snowball_stem(lang_code(lang), w)));
    join_strings(&stems, " ")
}

/// Whether a chunk of `cur` at `start` can be made: see `chunk_ok`.
fn chunk_fits(text: &str, c: &AdvancedChunkingConfig, cur: &String, start: usize) -> (b: bool)
    ensures
        b == chunk_ok(c, encode_utf8(text@), encode_utf8(cur@), start as int),
{
    let n = cur.as_str().as_bytes().len();
    let tlen = text.as_bytes().len();
    if start > usize::MAX - n {
        return false;
    }
    let end = start + n;
    if end > usize::MAX - c.context_after_chars {
        return false;
    }
    let cs = if start > c.context_before_chars { start - c.context_before_chars } else { 0 };
    let ce = if end + c.context_after_chars < tlen { end + c.context_after_chars } else { tlen };
    if cs < start && !(start <= tlen && text.is_char_boundary(cs) && text.is_char_boundary(start)) {
        return false;
    }
    if end < ce && !(text.is_char_boundary(end) && text.is_char_boundary(ce)) {
        return false;
    }
    true
}

/// The chunk of `cur` at `start` (see `make_chunk`).
fn build_chunk(
    text: &str,
    c: &AdvancedChunkingConfig,
    cur: &String,
    start: usize,
    csent: usize,
    sidx: usize,
    para: usize,
    n: usize,
) -> (e: EnhancedTextChunk)
    requires
        chunk_ok(c, encode_utf8(text@), encode_utf8(cur@), start as int),
    ensures
        chunk_view(e) == make_chunk(
            c,
            encode_utf8(text@),
            encode_utf8(cur@),
            start as int,
            csent as int,
            sidx as int,
            para as int,
            n as nat,
        ),
        unplaced(e),
{
    let len = cur.as_str().as_bytes().len();
    let tlen = text.as_bytes().len();
    let end = start + len;
    let cs = if start > c.context_before_chars { start - c.context_before_chars } else { 0 };
    let ce = if end + c.context_after_chars < tlen { end + c.context_after_chars } else { tlen };
    let before = if cs < start { byte_slice(text, cs, start) } else { String::new() };
    let after = if end < ce { byte_slice(text, end, ce) } else { String::new() };
    let mut id = String::new();
    push_str(&mut id, "chunk_");
    push_u64_decimal(&mut id, para as u64);
    push_str(&mut id, "_");
    push_u64_decimal(&mut id, n as u64);
    let stemmed_text = if c.enable_stemming { Some(stem_text(cur, c.language)) } else { None };
    proof {
        vstd::utf8::encode_utf8_decode_utf8(cur@);
        assert(id@ =~= "chunk_"@ + nat_decimal(para as nat) + "_"@ + nat_decimal(n as nat));
        if !(cs < start) {
            assert(encode_utf8(before@) =~= Seq::<u8>::empty());
        }
        if !(end < ce) {
            assert(encode_utf8(after@) =~= Seq::<u8>::empty());
        }
    }
    EnhancedTextChunk {
        chunk_id: id,
        text: cur.clone(),
        context_before: before,
        context_after: after,
        stemmed_text,
        shard: String::new(),
        start_pos: start,
        end_pos: end,
        start_sentence: csent,
        end_sentence: sidx,
        paragraph_index: para,
        vector_key: String::new(),
        metadata: Vec::new(),
    }
}

proof fn lemma_dot_space()
    ensures
        encode_utf8(". "@) == seq![46u8, 32u8],
{
    reveal_strlit(". ");
    assert(vstd::utf8::is_ascii_chars(". "@));
    vstd::utf8::is_ascii_chars_encode_utf8(". "@);
    assert(encode_utf8(". "@) =~= seq![46u8, 32u8]);
}

/// The chunking, or `None` where it would overflow a `usize` or cut a
/// character.
fn chunk_run(text: &str, c: &AdvancedChunkingConfig) -> (r: Option<Vec<EnhancedTextChunk>>)
    ensures
        r is Some <==> chunking(c, text@).ok,
        r matches Some(v) ==> chunk_views(v@) == chunking(c, text@).chunks
            && forall|i: int| 0 <= i < v@.len() ==> unplaced(#[trigger] v@[i]),
{
    let ghost t = text@;
    let ghost tb = encode_utf8(t);
    let paras: Vec<String> = if c.break_on_paragraphs {
        split_paragraphs(text)
    } else {
        let mut v: Vec<String> = Vec::new();
        v.push(text.to_owned());
        v
    };
    let ghost ps = paragraphs(c, t);
    assert(string_views(paras@) =~= ps);
    let mut chunks: Vec<EnhancedTextChunk> = Vec::new();
    let mut gpos: usize = 0;
    let mut sidx: usize = 0;
    let mut pi: usize = 0;
    assert(ps.take(0) =~= Seq::<Seq<char>>::empty());
    assert(chunk_views(chunks@) =~= Seq::<ChunkView>::empty());
    while pi < paras.len()
        invariant
            t == text@,
            tb == encode_utf8(t),
            ps == paragraphs(c, t),
            string_views(paras@) == ps,
            pi <= paras@.len(),
            run_before(c, t, pi as int).ok,
            run_before(c, t, pi as int).chunks == chunk_views(chunks@),
            run_before(c, t, pi as int).gpos == gpos,
            run_before(c, t, pi as int).sidx == sidx,
            forall|i: int| 0 <= i < chunks@.len() ==> unplaced(#[trigger] chunks@[i]),
        decreases paras.len() - pi,
    {
        let p = &paras[pi];
        let ghost rp = run_before(c, t, pi as int);
        assert(p@ == ps[pi as int]);
        let ss: Vec<String> = if c.break_on_sentences {
            split_sentences(p.as_str())
        } else {
            let mut v: Vec<String> = Vec::new();
            v.push(p.clone());
            v
        };
        let ghost sv = sentences(c, ps[pi as int]);
        assert(string_views(ss@) =~= sv);
        let mut cur = String::new();
        let mut start: usize = gpos;
        let mut csent: usize = sidx;
        let mut si: usize = 0;
        assert(sv.take(0) =~= Seq::<Seq<char>>::empty());
        assert(encode_utf8(cur@) =~= Seq::<u8>::empty());
        while si < ss.len()
            invariant
                t == text@,
                tb == encode_utf8(t),
                ps == paragraphs(c, t),
                string_views(paras@) == ps,
                pi < paras@.len(),
                rp == run_before(c, t, pi as int),
                sv == sentences(c, ps[pi as int]),
                string_views(ss@) == sv,
                si <= ss@.len(),
                sentences_fold(c, tb, pi as int, (rp, fill0(rp)), sv.take(si as int)).0.ok,
                sentences_fold(c, tb, pi as int, (rp, fill0(rp)), sv.take(si as int)).0.chunks == chunk_views(chunks@),
                sentences_fold(c, tb, pi as int, (rp, fill0(rp)), sv.take(si as int)).0.gpos == gpos,
                sentences_fold(c, tb, pi as int, (rp, fill0(rp)), sv.take(si as int)).0.sidx == sidx,
                sentences_fold(c, tb, pi as int, (rp, fill0(rp)), sv.take(si as int)).1.cur == encode_utf8(cur@),
                sentences_fold(c, tb, pi as int, (rp, fill0(rp)), sv.take(si as int)).1.start == start,
                sentences_fold(c, tb, pi as int, (rp, fill0(rp)), sv.take(si as int)).1.csent == csent,
                forall|i: int| 0 <= i < chunks@.len() ==> unplaced(#[trigger] chunks@[i]),
            decreases ss.len() - si,
        {
            let s = &ss[si];
            let ghost st = sentences_fold(c, tb, pi as int, (rp, fill0(rp)), sv.take(si as int));
            proof {
                assert(sv.take(si + 1).drop_last() =~= sv.take(si as int));
                assert(s@ == sv[si as int]);
                assert(sentences_fold(c, tb, pi as int, (rp, fill0(rp)), sv.take(si + 1))
                    == sentence_step(c, tb, pi as int, st, sv[si as int]));
            }
            let sb = s.as_str().as_bytes().len();
            let n = cur.as_str().as_bytes().len();
            if n > usize::MAX - sb {
                proof {
                    lemma_sentence_fails(c, t, pi as int, si + 1);
                }
                return None;
            }
            if n + sb > c.chunk_size && n > 0 {
                let os = if n > c.chunk_overlap { n - c.chunk_overlap } else { 0 };
                if !chunk_fits(text, c, &cur, start) || !cur.as_str().is_char_boundary(os) {
                    proof {
                        lemma_sentence_fails(c, t, pi as int, si + 1);
                    }
                    return None;
                }
                let e = build_chunk(text, c, &cur, start, csent, sidx, pi, chunks.len());
                let ghost before = chunks@;
                chunks.push(e);
                proof {
                    assert(chunk_views(chunks@) =~= chunk_views(before).push(chunk_view(e)));
                    vstd::utf8::encode_utf8_valid_utf8(cur@);
                    vstd::utf8::is_char_boundary_start_end_of_seq(encode_utf8(cur@));
                }
                let end = start + n;
                let kept = byte_slice(cur.as_str(), os, n);
                start = end - (n - os);
                cur = kept;
                csent = sidx;
            }
            if sb > usize::MAX - 2 || gpos > usize::MAX - 2 - sb || sidx == usize::MAX {
                proof {
                    lemma_sentence_fails(c, t, pi as int, si + 1);
                }
                return None;
            }
            let ghost mid = cur@;
            push_str(&mut cur, s.as_str());
            proof {
                lemma_encode_concat(mid, s@);
            }
            if c.break_on_sentences {
                let ghost mid2 = cur@;
                push_str(&mut cur, ". ");
                proof {
                    lemma_encode_concat(mid2, ". "@);
                    lemma_dot_space();
                }
            }
            gpos = gpos + sb + 2;
            sidx = sidx + 1;
            si = si + 1;
        }
        proof {
            assert(sv.take(si as int) =~= sv);
            lemma_run_next(c, t, pi as int);
        }
        let n = cur.as_str().as_bytes().len();
        if n > 0 && n >= c.min_chunk_size {
            if !chunk_fits(text, c, &cur, start) {
                proof {
                    lemma_para_fails(c, t, pi as int);
                }
                return None;
            }
            let e = build_chunk(text, c, &cur, start, csent, sidx, pi, chunks.len());
            let ghost before = chunks@;
            chunks.push(e);
            proof {
                assert(chunk_views(chunks@) =~= chunk_views(before).push(chunk_view(e)));
            }
        }
        if gpos > usize::MAX - 2 {
            proof {
                lemma_para_fails(c, t, pi as int);
            }
            return None;
        }
        gpos = gpos + 2;
        pi = pi + 1;
    }
    proof {
        assert(ps.take(pi as int) =~= ps);
    }
    Some(chunks)
}

/// Cuts `text` into chunks: paragraphs at blank lines, sentences within
/// them, sentences gathered into chunks of about `chunk_size` bytes that
/// overlap by `chunk_overlap`, each with some text of context on either
/// side and, when asked, its words stemmed. The input is one on which no
/// position overflows and no cut falls inside a character.
pub fn advanced_chunking(text: &str, config: &AdvancedChunkingConfig) -> (r: Vec<EnhancedTextChunk>)
    requires
        chunking(config, text@).ok,
    ensures
        chunk_views(r@) == chunking(config, text@).chunks,
        forall|i: int| 0 <= i < r@.len() ==> unplaced(#[trigger] r@[i]),
{
    match chunk_run(text, config) {
        Some(v) => v,
        None => Vec::new(),
    }
}

/// `advanced_chunking`, or `None` for a text on which a position would
/// overflow or a cut would fall inside a character.
pub fn try_advanced_chunking(text: &str, config: &AdvancedChunkingConfig) -> (r: Option<Vec<EnhancedTextChunk>>)
    ensures
        r is Some <==> chunking(config, text@).ok,
        r matches Some(v) ==> chunk_views(v@) == chunking(config, text@).chunks
            && forall|i: int| 0 <= i < v@.len() ==> unplaced(#[trigger] v@[i]),
{
    chunk_run(text, config)
}

/// A chunk is not empty, spans exactly its own bytes, starts no later in the
/// sentences than it ends, and has no more context on either side than
/// configured.
pub open spec fn chunk_shaped(c: &AdvancedChunkingConfig, ch: ChunkView) -> bool {
    &&& ch.text.len() > 0
    &&& ch.end_pos == ch.start_pos + ch.text.len()
    &&& ch.start_sentence <= ch.end_sentence
    &&& ch.before.len() <= c.context_before_chars
    &&& ch.after.len() <= c.context_after_chars
}

/// All the chunks are shaped.
pub open spec fn all_shaped(c: &AdvancedChunkingConfig, chunks: Seq<ChunkView>) -> bool {
    forall|i: int| 0 <= i < chunks.len() ==> chunk_shaped(c, #[trigger] chunks[i])
}

proof fn lemma_make_chunk_shaped(
    c: &AdvancedChunkingConfig,
    tb: Seq<u8>,
    cur: Seq<u8>,
    start: int,
    csent: int,
    sidx: int,
    para: int,
    n: nat,
)
    requires
        cur.len() > 0,
        start >= 0,
        csent <= sidx,
        chunk_ok(c, tb, cur, start),
    ensures
        chunk_shaped(c, make_chunk(c, tb, cur, start, csent, sidx, para, n)),
{
}

proof fn lemma_sentences_shaped(
    c: &AdvancedChunkingConfig,
    tb: Seq<u8>,
    para: int,
    st: (Run, Fill),
    ss: Seq<Seq<char>>,
)
    requires
        st.0.gpos >= 0,
        st.1.start >= 0,
        st.1.csent <= st.0.sidx,
        st.0.ok ==> all_shaped(c, st.0.chunks),
    ensures
        sentences_fold(c, tb, para, st, ss).0.gpos >= 0,
        sentences_fold(c, tb, para, st, ss).1.start >= 0,
        sentences_fold(c, tb, para, st, ss).1.csent <= sentences_fold(c, tb, para, st, ss).0.sidx,
        sentences_fold(c, tb, para, st, ss).0.ok ==> all_shaped(c, sentences_fold(c, tb, para, st, ss).0.chunks),
    decreases ss.len(),
{
    if ss.len() > 0 {
        let prev = sentences_fold(c, tb, para, st, ss.drop_last());
        lemma_sentences_shaped(c, tb, para, st, ss.drop_last());
        let (r, f) = prev;
        let nxt = sentence_step(c, tb, para, prev, ss.last());
        if nxt.0.ok && f.cur.len() + encode_utf8(ss.last()).len() > c.chunk_size && f.cur.len() > 0 {
            lemma_make_chunk_shaped(c, tb, f.cur, f.start, f.csent, r.sidx, para, r.chunks.len());
            assert(all_shaped(c, nxt.0.chunks));
        }
    }
}

proof fn lemma_paras_shaped(c: &AdvancedChunkingConfig, tb: Seq<u8>, r: Run, ps: Seq<Seq<char>>)
    requires
        r.gpos >= 0,
        r.ok ==> all_shaped(c, r.chunks),
    ensures
        paras_fold(c, tb, r, ps).gpos >= 0,
        paras_fold(c, tb, r, ps).ok ==> all_shaped(c, paras_fold(c, tb, r, ps).chunks),
    decreases ps.len(),
{
    if ps.len() > 0 {
        let prev = paras_fold(c, tb, r, ps.drop_last());
        lemma_paras_shaped(c, tb, r, ps.drop_last());
        let pi = ps.len() - 1;
        let p = ps.last();
        let st = (prev, fill0(prev));
        lemma_sentences_shaped(c, tb, pi, st, sentences(c, p));
        let (r1, f) = sentences_fold(c, tb, pi, st, sentences(c, p));
        let nxt = para_step(c, tb, prev, p, pi);
        if nxt.ok {
            lemma_para_step_ok(c, tb, prev, p, pi);
            if f.cur.len() > 0 && f.cur.len() >= c.min_chunk_size {
                lemma_make_chunk_shaped(c, tb, f.cur, f.start, f.csent, r1.sidx, pi, r1.chunks.len());
            }
            assert(all_shaped(c, nxt.chunks));
        }
    }
}

/// Every chunk of a text is not empty, spans exactly its own bytes
/// (`end_pos - start_pos` is its length), starts no later in the
/// sentences than it ends, and carries no more context before and after
/// it than configured.
pub proof fn lemma_chunks_shaped(c: &AdvancedChunkingConfig, t: Seq<char>)
    requires
        chunking(c, t).ok,
    ensures
        forall|i: int| 0 <= i < chunking(c, t).chunks.len() ==> chunk_shaped(c, #[trigger] chunking(c, t).chunks[i]),
{
    lemma_paras_shaped(c, encode_utf8(t), run0(), paragraphs(c, t));
}

} // verus!

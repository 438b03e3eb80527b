use vstd::prelude::*;
use vstd::utf8::encode_utf8;

use crate::blob::BlobMetadata;
use crate::glob::has_suffix;
use crate::keyed::{keyed_map, lemma_keyed_dom, lemma_keyed_get, lemma_keyed_len, lemma_keyed_update, lemma_unique_drop_last, unique_keys};
use crate::ring::string_views;
use crate::text::{chars_of, push_char};

verus! {

/// What `str::to_lowercase` makes of a string.
pub uninterp spec fn lowercase(s: Seq<char>) -> Seq<char>;

/// Lower-cases a string with `str::to_lowercase`. The result is named by
/// `lowercase`: it depends on the string alone, through the Unicode case
/// tables of the standard library, which this contract does not restate.
#[verifier::external_body]
pub(crate) fn to_lower(s: &str) -> (r: String)
    ensures
        r@ == lowercase(s@),
{
    s.to_lowercase()
}

/// Whether `char::is_alphanumeric` holds of a character.
pub uninterp spec fn alphanumeric(c: char) -> bool;

/// `char::is_alphanumeric`: alphabetic or numeric by the Unicode tables of
/// the standard library, which this contract does not restate.
#[verifier::external_body]
fn is_alnum(c: char) -> (b: bool)
    ensures
        b == alphanumeric(c),
{
    c.is_alphanumeric()
}

/// How text is cut into index terms.
#[derive(Clone, Debug)]
pub struct TokenizerOptions {
    pub min_token_length: usize,
    pub max_token_length: usize,
    pub stop_words: Vec<String>,
    pub stem_words: bool,
    pub case_sensitive: bool,
}

/// The stop words of the default options.
pub open spec fn default_stop_words() -> Seq<Seq<char>> {
    seq![
        "a"@, "an"@, "and"@, "or"@, "the"@, "of"@, "to"@, "in"@, "for"@, "with"@, "on"@, "at"@,
        "by"@, "is"@, "are"@, "was"@, "were"@,
    ]
}

impl TokenizerOptions {
    /// Terms of 2 to 50 bytes, common English stop words dropped, stemmed,
    /// case folded.
    pub fn default() -> (o: Self)
        ensures
            o.min_token_length == 2,
            o.max_token_length == 50,
            string_views(o.stop_words@) == default_stop_words(),
            o.stem_words,
            !o.case_sensitive,
    {
        let stop_words = vec![
            "a".to_owned(), "an".to_owned(), "and".to_owned(), "or".to_owned(),
            "the".to_owned(), "of".to_owned(), "to".to_owned(), "in".to_owned(),
            "for".to_owned(), "with".to_owned(), "on".to_owned(), "at".to_owned(),
            "by".to_owned(), "is".to_owned(), "are".to_owned(), "was".to_owned(),
            "were".to_owned(),
        ];
        assert(string_views(stop_words@) =~= default_stop_words());
        TokenizerOptions {
            min_token_length: 2,
            max_token_length: 50,
            stop_words,
            stem_words: true,
            case_sensitive: false,
        }
    }
}

/// Scanning `s` from the left: the words completed so far and the word in
/// progress. Words are the maximal runs of alphanumeric characters.
pub open spec fn scan_words(s: Seq<char>) -> (Seq<Seq<char>>, Seq<char>)
    decreases s.len(),
{
    if s.len() == 0 {
        (seq![], seq![])
    } else {
        let prev = scan_words(s.drop_last());
        let c = s.last();
        if alphanumeric(c) {
            (prev.0, prev.1.push(c))
        } else if prev.1.len() > 0 {
            (prev.0.push(prev.1), seq![])
        } else {
            (prev.0, seq![])
        }
    }
}

/// The words of `s`: the pieces between non-alphanumeric characters,
/// empty pieces left out.
pub open spec fn split_words(s: Seq<char>) -> Seq<Seq<char>> {
    let r = scan_words(s);
    if r.1.len() > 0 {
        r.0.push(r.1)
    } else {
        r.0
    }
}

/// The suffixes that stemming strips, in the order they are tried.
pub open spec fn stem_suffixes() -> Seq<Seq<char>> {
    seq![
        seq!['i', 'n', 'g'],
        seq!['e', 'd'],
        seq!['s'],
        seq!['e', 's'],
        seq!['l', 'y'],
        seq!['m', 'e', 'n', 't'],
        seq!['t', 'i', 'o', 'n'],
        seq!['a', 'b', 'l', 'e'],
        seq!['i', 'b', 'l', 'e'],
    ]
}

/// Stemming of a lower-cased word, trying the suffixes from position `i`:
/// the first suffix that the word ends with, while the word is longer (in
/// UTF-8 bytes) than the suffix plus two, is cut off.
pub open spec fn stem_from(w: Seq<char>, i: int) -> Seq<char>
    decreases stem_suffixes().len() - i,
{
    if i < 0 || i >= stem_suffixes().len() {
        w
    } else if has_suffix(w, stem_suffixes()[i]) && encode_utf8(w).len() > stem_suffixes()[i].len() + 2 {
        w.take(w.len() - stem_suffixes()[i].len())
    } else {
        stem_from(w, i + 1)
    }
}

/// The stem of a word: lower-cased, then stripped of its first matching
/// suffix.
pub open spec fn stem(w: Seq<char>) -> Seq<char> {
    stem_from(lowercase(w), 0)
}

/// Whether a word is kept as a token: its UTF-8 length is within the
/// bounds and it is no stop word.
pub open spec fn keeps_word(w: Seq<char>, min: nat, max: nat, stops: Seq<Seq<char>>) -> bool {
    min <= encode_utf8(w).len() <= max && !stops.contains(w)
}

/// The tokens made of the words `ws`, in order.
pub open spec fn tokens_from(
    ws: Seq<Seq<char>>,
    min: nat,
    max: nat,
    stops: Seq<Seq<char>>,
    stem_words: bool,
) -> Seq<Seq<char>>
    decreases ws.len(),
{
    if ws.len() == 0 {
        seq![]
    } else {
        let rest = tokens_from(ws.drop_last(), min, max, stops, stem_words);
        let w = ws.last();
        if keeps_word(w, min, max, stops) {
            rest.push(if stem_words { stem(w) } else { w })
        } else {
            rest
        }
    }
}

/// The tokens of `text` under options `o`: the text, lower-cased unless
/// the options are case sensitive, is split into words; words outside the
/// length bounds and stop words are dropped; the rest are stemmed if the
/// options ask for it.
pub open spec fn tokenize_spec(o: &TokenizerOptions, text: Seq<char>) -> Seq<Seq<char>> {
    let processed = if o.case_sensitive { text } else { lowercase(text) };
    tokens_from(
        split_words(processed),
        o.min_token_length as nat,
        o.max_token_length as nat,
        string_views(o.stop_words@),
        o.stem_words,
    )
}

/// A string with the given characters.
fn string_of(cs: &Vec<char>) -> (s: String)
    ensures
        s@ == cs@,
{
    let mut s = String::new();
    let mut i: usize = 0;
    while i < cs.len()
        invariant
            i <= cs.len(),
            s@ == cs@.take(i as int),
        decreases cs.len() - i,
    {
        push_char(&mut s, cs[i]);
        assert(cs@.take(i + 1) =~= cs@.take(i as int).push(cs@[i as int]));
        i += 1;
    }
    assert(cs@.take(cs.len() as int) =~= cs@);
    s
}

/// Whether `w` ends with `suf`.
fn ends_with_chars(w: &Vec<char>, suf: &Vec<char>) -> (b: bool)
    ensures
        b == has_suffix(w@, suf@),
{
    if suf.len() > w.len() {
        return false;
    }
    let off = w.len() - suf.len();
    let mut i: usize = 0;
    while i < suf.len()
        invariant
            off + suf.len() == w.len(),
            i <= suf.len(),
            forall|j: int| 0 <= j < i ==> w@[off + j] == suf@[j],
        decreases suf.len() - i,
    {
        if w[off + i] != suf[i] {
            assert(w@.skip(off as int)[i as int] != suf@[i as int]);
            return false;
        }
        i += 1;
    }
    assert(w@.skip(off as int) =~= suf@);
    true
}

/// The stemming suffixes as character vectors.
fn suffix_table() -> (t: Vec<Vec<char>>)
    ensures
        t.len() == stem_suffixes().len(),
        forall|i: int| 0 <= i < t.len() ==> #[trigger] t[i]@ == stem_suffixes()[i],
{
    let t = vec![
        vec!['i', 'n', 'g'],
        vec!['e', 'd'],
        vec!['s'],
        vec!['e', 's'],
        vec!['l', 'y'],
        vec!['m', 'e', 'n', 't'],
        vec!['t', 'i', 'o', 'n'],
        vec!['a', 'b', 'l', 'e'],
        vec!['i', 'b', 'l', 'e'],
    ];
    assert(t[0]@ =~= stem_suffixes()[0]);
    assert(t[1]@ =~= stem_suffixes()[1]);
    assert(t[2]@ =~= stem_suffixes()[2]);
    assert(t[3]@ =~= stem_suffixes()[3]);
    assert(t[4]@ =~= stem_suffixes()[4]);
    assert(t[5]@ =~= stem_suffixes()[5]);
    assert(t[6]@ =~= stem_suffixes()[6]);
    assert(t[7]@ =~= stem_suffixes()[7]);
    assert(t[8]@ =~= stem_suffixes()[8]);
    t
}

/// The stem of a word: lower-cased, then the first of `ing`, `ed`, `s`,
/// `es`, `ly`, `ment`, `tion`, `able`, `ible` that it ends with is cut off,
/// provided the word is longer (in UTF-8 bytes) than that suffix plus two.
pub fn stem_word(word: &str) -> (r: String)
    ensures
        r@ == stem(word@),
{
    let lw = to_lower(word);
    let byte_len = lw.as_str().as_bytes().len();
    let cs = chars_of(lw.as_str());
    let table = suffix_table();
    let mut i: usize = 0;
    while i < table.len()
        invariant
            i <= table.len(),
            table.len() == stem_suffixes().len(),
            forall|k: int| 0 <= k < table.len() ==> #[trigger] table[k]@ == stem_suffixes()[k],
            cs@ == lowercase(word@),
            byte_len == encode_utf8(cs@).len(),
            stem_from(cs@, 0) == stem_from(cs@, i as int),
        decreases table.len() - i,
    {
        let suf = &table[i];
        if ends_with_chars(&cs, suf) && byte_len > suf.len() + 2 {
            let keep = cs.len() - suf.len();
            let mut out: Vec<char> = Vec::new();
            let mut j: usize = 0;
            while j < keep
                invariant
                    j <= keep,
                    keep <= cs.len(),
                    out@ == cs@.take(j as int),
                decreases keep - j,
            {
                out.push(cs[j]);
                assert(cs@.take(j + 1) =~= cs@.take(j as int).push(cs@[j as int]));
                j += 1;
            }
            return string_of(&out);
        }
        i += 1;
    }
    string_of(&cs)
}

/// Whether `w` is one of the stop words.
fn is_stop_word(w: &String, stops: &Vec<String>) -> (b: bool)
    ensures
        b == string_views(stops@).contains(w@),
{
    let mut i: usize = 0;
    while i < stops.len()
        invariant
            i <= stops.len(),
            forall|k: int| 0 <= k < i ==> stops@[k]@ != w@,
        decreases stops.len() - i,
    {
        if stops[i] == *w {
            assert(string_views(stops@)[i as int] == w@);
            return true;
        }
        i += 1;
    }
    assert forall|k: int| 0 <= k < string_views(stops@).len() implies string_views(stops@)[k] != w@ by {
        assert(string_views(stops@)[k] == stops@[k]@);
    }
    false
}

/// Appends to `out` the token made of the word `cs`, if the word is kept.
fn push_token(out: &mut Vec<String>, cs: &Vec<char>, o: &TokenizerOptions)
    ensures
        string_views(final(out)@) == (if keeps_word(cs@, o.min_token_length as nat, o.max_token_length as nat, string_views(o.stop_words@)) {
            string_views(old(out)@).push(if o.stem_words { stem(cs@) } else { cs@ })
        } else {
            string_views(old(out)@)
        }),
{
    let word = string_of(cs);
    let byte_len = word.as_str().as_bytes().len();
    if byte_len < o.min_token_length || byte_len > o.max_token_length {
        return;
    }
    if is_stop_word(&word, &o.stop_words) {
        return;
    }
    let token = if o.stem_words { stem_word(word.as_str()) } else { word };
    let ghost before = out@;
    out.push(token);
    assert(string_views(out@) =~= string_views(before).push(token@));
}

/// The tokens of `text` under `options`: the text, lower-cased unless the
/// options are case sensitive, is split at every character that is not
/// alphanumeric; empty pieces, pieces shorter or longer (in UTF-8 bytes)
/// than the bounds, and stop words are dropped; the rest are stemmed if
/// the options ask for it.
pub fn tokenize(options: &TokenizerOptions, text: &str) -> (r: Vec<String>)
    ensures
        string_views(r@) == tokenize_spec(options, text@),
{
    let processed = if options.case_sensitive { text.to_owned() } else { to_lower(text) };
    let cs = chars_of(processed.as_str());
    let ghost min = options.min_token_length as nat;
    let ghost max = options.max_token_length as nat;
    let ghost stops = string_views(options.stop_words@);
    let ghost st = options.stem_words;
    let mut out: Vec<String> = Vec::new();
    let mut cur: Vec<char> = Vec::new();
    assert(cs@.take(0) =~= Seq::<char>::empty());
    assert(string_views(out@) =~= Seq::<Seq<char>>::empty());
    let mut i: usize = 0;
    while i < cs.len()
        invariant
            i <= cs.len(),
            min == options.min_token_length as nat,
            max == options.max_token_length as nat,
            stops == string_views(options.stop_words@),
            st == options.stem_words,
            cur@ == scan_words(cs@.take(i as int)).1,
            string_views(out@) == tokens_from(scan_words(cs@.take(i as int)).0, min, max, stops, st),
        decreases cs.len() - i,
    {
        let c = cs[i];
        assert(cs@.take(i + 1).drop_last() =~= cs@.take(i as int));
        let ghost prev = scan_words(cs@.take(i as int));
        if is_alnum(c) {
            cur.push(c);
        } else if cur.len() > 0 {
            assert(prev.0.push(prev.1).drop_last() =~= prev.0);
            push_token(&mut out, &cur, options);
            cur = Vec::new();
            assert(cur@ =~= Seq::<char>::empty());
        } else {
            assert(cur@ =~= Seq::<char>::empty());
        }
        i += 1;
    }
    assert(cs@.take(cs.len() as int) =~= cs@);
    let ghost fin = scan_words(cs@);
    if cur.len() > 0 {
        assert(fin.0.push(fin.1).drop_last() =~= fin.0);
        push_token(&mut out, &cur, options);
    }
    out
}

// ---------------------------------------------------------------------
// The inverted index
// ---------------------------------------------------------------------

/// How often a term occurs in one document.
#[derive(Clone, Debug)]
pub struct DocFreq {
    pub doc: String,
    pub freq: usize,
}

/// A term and the documents that contain it.
#[derive(Clone, Debug)]
pub struct TermEntry {
    pub term: String,
    pub docs: Vec<DocFreq>,
}

/// The postings of one term as (document, count) pairs.
pub open spec fn doc_pairs(ds: Seq<DocFreq>) -> Seq<(Seq<char>, nat)> {
    ds.map_values(|d: DocFreq| (d.doc@, d.freq as nat))
}

/// The counts of one term by document.
pub open spec fn docs_map(ds: Seq<DocFreq>) -> Map<Seq<char>, nat> {
    keyed_map(doc_pairs(ds))
}

/// The entries as (term, counts by document) pairs.
pub open spec fn entry_pairs(es: Seq<TermEntry>) -> Seq<(Seq<char>, Map<Seq<char>, nat>)> {
    es.map_values(|e: TermEntry| (e.term@, docs_map(e.docs@)))
}

/// A well-formed abstract index: every term has a document, and every
/// count is at least one.
pub open spec fn valid_index(m: Map<Seq<char>, Map<Seq<char>, nat>>) -> bool {
    forall|t: Seq<char>| #[trigger] m.contains_key(t) ==> {
        &&& exists|d: Seq<char>| m[t].contains_key(d)
        &&& forall|d: Seq<char>| #[trigger] m[t].contains_key(d) ==> m[t][d] >= 1
    }
}

/// Whether one term entry is well formed: documents unique, at least one,
/// every count at least one.
pub open spec fn entry_wf(e: TermEntry) -> bool {
    &&& unique_keys(doc_pairs(e.docs@))
    &&& e.docs@.len() > 0
    &&& forall|j: int| 0 <= j < e.docs@.len() ==> #[trigger] e.docs@[j].freq >= 1
}

/// A full-text index: an inverted index from terms to the documents that
/// contain them, with counts, and the options that cut text into terms.
pub struct FullTextIndex {
    entries: Vec<TermEntry>,
    tokenizer_options: TokenizerOptions,
}

impl FullTextIndex {
    /// The abstract index.
    pub closed spec fn view(&self) -> Map<Seq<char>, Map<Seq<char>, nat>> {
        keyed_map(entry_pairs(self.entries@))
    }

    /// The term entries, in the order they were added.
    pub closed spec fn entry_list(&self) -> Seq<TermEntry> {
        self.entries@
    }

    /// The tokenizer options.
    pub closed spec fn options(&self) -> &TokenizerOptions {
        &self.tokenizer_options
    }

    /// The representation invariant.
    pub closed spec fn wf(&self) -> bool {
        &&& unique_keys(entry_pairs(self.entries@))
        &&& forall|i: int| 0 <= i < self.entries@.len() ==> #[trigger] entry_wf(self.entries@[i])
    }

    /// An empty index with the given options.
    pub fn new(options: TokenizerOptions) -> (r: Self)
        ensures
            r.wf(),
            r.view() == Map::<Seq<char>, Map<Seq<char>, nat>>::empty(),
            *r.options() == options,
    {
        let r = FullTextIndex { entries: Vec::new(), tokenizer_options: options };
        assert(entry_pairs(r.entries@) =~= Seq::empty());
        r
    }
}


/// The count of term `t` in document `d`; zero where the term or the
/// document is absent.
pub open spec fn term_freq(m: Map<Seq<char>, Map<Seq<char>, nat>>, t: Seq<char>, d: Seq<char>) -> nat {
    if m.contains_key(t) && m[t].contains_key(d) {
        m[t][d]
    } else {
        0
    }
}

/// The index after one more occurrence of term `t` in document `key`.
pub open spec fn add_token(m: Map<Seq<char>, Map<Seq<char>, nat>>, key: Seq<char>, t: Seq<char>) -> Map<Seq<char>, Map<Seq<char>, nat>> {
    let docs = if m.contains_key(t) { m[t] } else { Map::empty() };
    m.insert(t, docs.insert(key, term_freq(m, t, key) + 1))
}

/// The index with the count of term `t` in document `key` set to `f`.
pub open spec fn put_posting(m: Map<Seq<char>, Map<Seq<char>, nat>>, t: Seq<char>, key: Seq<char>, f: nat) -> Map<Seq<char>, Map<Seq<char>, nat>> {
    let docs = if m.contains_key(t) { m[t] } else { Map::empty() };
    m.insert(t, docs.insert(key, f))
}

/// The index after the occurrences `ts` of terms in document `key`, taken
/// one after the other.
pub open spec fn add_tokens(m: Map<Seq<char>, Map<Seq<char>, nat>>, key: Seq<char>, ts: Seq<Seq<char>>) -> Map<Seq<char>, Map<Seq<char>, nat>>
    decreases ts.len(),
{
    if ts.len() == 0 {
        m
    } else {
        add_token(add_tokens(m, key, ts.drop_last()), key, ts.last())
    }
}

/// The position of the entry for term `t`, if any.
fn find_term(entries: &Vec<TermEntry>, t: &String) -> (r: Option<usize>)
    ensures
        match r {
            Some(i) => i < entries@.len() && entries@[i as int].term@ == t@,
            None => forall|i: int| 0 <= i < entries@.len() ==> entries@[i].term@ != t@,
        },
{
    let mut i: usize = 0;
    while i < entries.len()
        invariant
            i <= entries@.len(),
            forall|k: int| 0 <= k < i ==> entries@[k].term@ != t@,
        decreases entries.len() - i,
    {
        if entries[i].term == *t {
            return Some(i);
        }
        i += 1;
    }
    None
}

/// The position of the posting for document `d`, if any.
fn find_doc(docs: &Vec<DocFreq>, d: &String) -> (r: Option<usize>)
    ensures
        match r {
            Some(j) => j < docs@.len() && docs@[j as int].doc@ == d@,
            None => forall|j: int| 0 <= j < docs@.len() ==> docs@[j].doc@ != d@,
        },
{
    let mut j: usize = 0;
    while j < docs.len()
        invariant
            j <= docs@.len(),
            forall|k: int| 0 <= k < j ==> docs@[k].doc@ != d@,
        decreases docs.len() - j,
    {
        if docs[j].doc == *d {
            return Some(j);
        }
        j += 1;
    }
    None
}

/// The entry pairs after replacing entry `i`.
proof fn lemma_entry_pairs_update(es: Seq<TermEntry>, i: int, e: TermEntry)
    requires
        0 <= i < es.len(),
    ensures
        entry_pairs(es.update(i, e)) == entry_pairs(es).update(i, (e.term@, docs_map(e.docs@))),
{
    assert(entry_pairs(es.update(i, e)) =~= entry_pairs(es).update(i, (e.term@, docs_map(e.docs@))));
}

/// The doc pairs after replacing posting `j`.
proof fn lemma_doc_pairs_update(ds: Seq<DocFreq>, j: int, d: DocFreq)
    requires
        0 <= j < ds.len(),
    ensures
        doc_pairs(ds.update(j, d)) == doc_pairs(ds).update(j, (d.doc@, d.freq as nat)),
{
    assert(doc_pairs(ds.update(j, d)) =~= doc_pairs(ds).update(j, (d.doc@, d.freq as nat)));
}

impl FullTextIndex {
    /// Counts one more occurrence of term `t` in document `key`.
    fn add_occurrence(&mut self, t: &String, key: &String)
        requires
            old(self).wf(),
            term_freq(old(self).view(), t@, key@) < usize::MAX,
        ensures
            final(self).wf(),
            final(self).view() == add_token(old(self).view(), key@, t@),
            final(self).options() == old(self).options(),
    {
        let f = self.freq_of(t, key);
        self.put_freq(t, key, f + 1);
    }

    /// Sets the count of term `t` in document `key` to `f`.
    fn put_freq(&mut self, t: &String, key: &String, f: usize)
        requires
            old(self).wf(),
            f >= 1,
        ensures
            final(self).wf(),
            final(self).view() == put_posting(old(self).view(), t@, key@, f as nat),
            final(self).options() == old(self).options(),
    {
        let ghost es = self.entries@;
        let ghost m = self.view();
        match find_term(&self.entries, t) {
            Some(i) => {
                proof {
                    lemma_keyed_get(entry_pairs(es), i as int);
                }
                let mut e = self.entries.remove(i);
                let ghost ds = e.docs@;
                assert(entry_wf(es[i as int]));
                match find_doc(&e.docs, key) {
                    Some(j) => {
                        proof {
                            lemma_keyed_get(doc_pairs(ds), j as int);
                        }
                        let mut df = e.docs.remove(j);
                        df.freq = f;
                        e.docs.insert(j, df);
                        assert(e.docs@ =~= ds.update(j as int, df));
                        proof {
                            lemma_doc_pairs_update(ds, j as int, df);
                            assert(doc_pairs(ds)[j as int].0 == key@);
                            lemma_keyed_update(doc_pairs(ds), j as int, df.freq as nat);
                            assert(unique_keys(doc_pairs(e.docs@))) by {
                                assert forall|a: int, b: int| 0 <= a < b < doc_pairs(e.docs@).len() implies doc_pairs(e.docs@)[a].0 != doc_pairs(e.docs@)[b].0 by {
                                    assert(doc_pairs(ds)[a].0 != doc_pairs(ds)[b].0);
                                }
                            }
                            assert forall|k: int| 0 <= k < e.docs@.len() implies #[trigger] e.docs@[k].freq >= 1 by {
                                if k != j {
                                    assert(e.docs@[k] == ds[k]);
                                }
                            }
                        }
                    },
                    None => {
                        proof {
                            lemma_keyed_dom(doc_pairs(ds), key@);
                            if keyed_map(doc_pairs(ds)).contains_key(key@) {
                                let k = choose|k: int| 0 <= k < doc_pairs(ds).len() && doc_pairs(ds)[k].0 == key@;
                                assert(ds[k].doc@ == key@);
                            }
                        }
                        let df = DocFreq { doc: key.clone(), freq: f };
                        e.docs.push(df);
                        proof {
                            assert(doc_pairs(e.docs@) =~= doc_pairs(ds).push((key@, f as nat)));
                            assert(doc_pairs(e.docs@).drop_last() =~= doc_pairs(ds));
                            assert(unique_keys(doc_pairs(e.docs@))) by {
                                assert forall|a: int, b: int| 0 <= a < b < doc_pairs(e.docs@).len() implies doc_pairs(e.docs@)[a].0 != doc_pairs(e.docs@)[b].0 by {
                                    if b < ds.len() {
                                        assert(doc_pairs(ds)[a].0 != doc_pairs(ds)[b].0);
                                    } else {
                                        assert(ds[a].doc@ != key@);
                                    }
                                }
                            }
                            assert forall|k: int| 0 <= k < e.docs@.len() implies #[trigger] e.docs@[k].freq >= 1 by {
                                if k < ds.len() {
                                    assert(e.docs@[k] == ds[k]);
                                }
                            }
                        }
                    },
                }
                let ghost e2 = e;
                self.entries.insert(i, e);
                proof {
                    assert(self.entries@ =~= es.update(i as int, e2));
                    lemma_entry_pairs_update(es, i as int, e2);
                    lemma_keyed_update(entry_pairs(es), i as int, docs_map(e2.docs@));
                    assert(self.view() =~= put_posting(m, t@, key@, f as nat));
                    assert(unique_keys(entry_pairs(self.entries@))) by {
                        assert forall|a: int, b: int| 0 <= a < b < entry_pairs(self.entries@).len() implies entry_pairs(self.entries@)[a].0 != entry_pairs(self.entries@)[b].0 by {
                            assert(entry_pairs(es)[a].0 != entry_pairs(es)[b].0);
                        }
                    }
                    assert forall|k: int| 0 <= k < self.entries@.len() implies #[trigger] entry_wf(self.entries@[k]) by {
                        if k != i {
                            assert(self.entries@[k] == es[k]);
                        }
                    }
                }
            },
            None => {
                proof {
                    lemma_keyed_dom(entry_pairs(es), t@);
                    if m.contains_key(t@) {
                        let k = choose|k: int| 0 <= k < entry_pairs(es).len() && entry_pairs(es)[k].0 == t@;
                        assert(es[k].term@ == t@);
                    }
                }
                let mut docs: Vec<DocFreq> = Vec::new();
                docs.push(DocFreq { doc: key.clone(), freq: f });
                let e = TermEntry { term: t.clone(), docs };
                let ghost e2 = e;
                self.entries.push(e);
                proof {
                    assert(doc_pairs(e2.docs@) =~= seq![(key@, f as nat)]);
                    assert(doc_pairs(e2.docs@).drop_last() =~= Seq::<(Seq<char>, nat)>::empty());
                    assert(keyed_map(Seq::<(Seq<char>, nat)>::empty()) == Map::<Seq<char>, nat>::empty());
                    assert(docs_map(e2.docs@) =~= Map::<Seq<char>, nat>::empty().insert(key@, f as nat));
                    assert(entry_pairs(self.entries@) =~= entry_pairs(es).push((t@, docs_map(e2.docs@))));
                    assert(entry_pairs(self.entries@).drop_last() =~= entry_pairs(es));
                    assert(self.view() =~= put_posting(m, t@, key@, f as nat));
                    assert(unique_keys(entry_pairs(self.entries@))) by {
                        assert forall|a: int, b: int| 0 <= a < b < entry_pairs(self.entries@).len() implies entry_pairs(self.entries@)[a].0 != entry_pairs(self.entries@)[b].0 by {
                            if b < es.len() {
                                assert(entry_pairs(es)[a].0 != entry_pairs(es)[b].0);
                            } else {
                                assert(es[a].term@ != t@);
                            }
                        }
                    }
                    assert(unique_keys(doc_pairs(e2.docs@)));
                    assert(entry_wf(e2));
                    assert forall|k: int| 0 <= k < self.entries@.len() implies #[trigger] entry_wf(self.entries@[k]) by {
                        if k < es.len() {
                            assert(self.entries@[k] == es[k]);
                        }
                    }
                }
            },
        }
    }
}

/// The number of times `t` occurs in `ts`.
pub open spec fn count_in(ts: Seq<Seq<char>>, t: Seq<char>) -> nat
    decreases ts.len(),
{
    if ts.len() == 0 {
        0
    } else {
        count_in(ts.drop_last(), t) + if ts.last() == t { 1nat } else { 0nat }
    }
}

/// Adding the occurrences `ts` to document `key` keeps every count within
/// `usize`.
pub open spec fn counts_fit(m: Map<Seq<char>, Map<Seq<char>, nat>>, key: Seq<char>, ts: Seq<Seq<char>>) -> bool {
    forall|t: Seq<char>| #[trigger] term_freq(m, t, key) + count_in(ts, t) <= usize::MAX
}

proof fn lemma_count_prefix(ts: Seq<Seq<char>>, k: int, t: Seq<char>)
    requires
        0 <= k <= ts.len(),
    ensures
        count_in(ts.take(k), t) <= count_in(ts, t),
    decreases ts.len(),
{
    if k < ts.len() {
        assert(ts.drop_last().take(k) =~= ts.take(k));
        lemma_count_prefix(ts.drop_last(), k, t);
    } else {
        assert(ts.take(k) =~= ts);
    }
}

/// Counting occurrences one by one adds, for the document they are in, the
/// number of occurrences of each term, and changes no other document.
pub proof fn lemma_add_tokens_freq(m: Map<Seq<char>, Map<Seq<char>, nat>>, key: Seq<char>, ts: Seq<Seq<char>>)
    ensures
        forall|t: Seq<char>, d: Seq<char>| #[trigger] term_freq(add_tokens(m, key, ts), t, d)
            == term_freq(m, t, d) + if d == key { count_in(ts, t) } else { 0 },
    decreases ts.len(),
{
    if ts.len() > 0 {
        lemma_add_tokens_freq(m, key, ts.drop_last());
        let p = add_tokens(m, key, ts.drop_last());
        assert forall|t: Seq<char>, d: Seq<char>| #[trigger] term_freq(add_tokens(m, key, ts), t, d)
            == term_freq(m, t, d) + if d == key { count_in(ts, t) } else { 0 } by {
            assert(term_freq(p, t, d) == term_freq(m, t, d) + if d == key { count_in(ts.drop_last(), t) } else { 0 });
        }
    }
}

/// Counting occurrences keeps an index well formed.
pub proof fn lemma_add_tokens_valid(m: Map<Seq<char>, Map<Seq<char>, nat>>, key: Seq<char>, ts: Seq<Seq<char>>)
    requires
        valid_index(m),
    ensures
        valid_index(add_tokens(m, key, ts)),
    decreases ts.len(),
{
    if ts.len() > 0 {
        lemma_add_tokens_valid(m, key, ts.drop_last());
        let p = add_tokens(m, key, ts.drop_last());
        let r = add_tokens(m, key, ts);
        assert forall|t: Seq<char>| #[trigger] r.contains_key(t) implies {
            &&& exists|d: Seq<char>| r[t].contains_key(d)
            &&& forall|d: Seq<char>| #[trigger] r[t].contains_key(d) ==> r[t][d] >= 1
        } by {
            assert(r == add_token(p, key, ts.last()));
            if t == ts.last() {
                assert(r[t].contains_key(key));
                assert forall|d: Seq<char>| #[trigger] r[t].contains_key(d) implies r[t][d] >= 1 by {
                    if d != key {
                        assert(p.contains_key(t));
                        assert(p[t].contains_key(d));
                    }
                }
            } else {
                assert(p.contains_key(t));
                assert(r[t] == p[t]);
                let d0 = choose|d: Seq<char>| p[t].contains_key(d);
                assert(r[t].contains_key(d0));
            }
        }
    }
}

impl FullTextIndex {
    /// The count of term `t` in document `d`.
    fn freq_of(&self, t: &String, d: &String) -> (f: usize)
        requires
            self.wf(),
        ensures
            f == term_freq(self.view(), t@, d@),
    {
        let ghost es = self.entries@;
        match find_term(&self.entries, t) {
            Some(i) => {
                proof {
                    lemma_keyed_get(entry_pairs(es), i as int);
                }
                let docs = &self.entries[i].docs;
                match find_doc(docs, d) {
                    Some(j) => {
                        proof {
                            assert(entry_wf(es[i as int]));
                            lemma_keyed_get(doc_pairs(docs@), j as int);
                        }
                        docs[j].freq
                    },
                    None => {
                        proof {
                            lemma_keyed_dom(doc_pairs(docs@), d@);
                            if keyed_map(doc_pairs(docs@)).contains_key(d@) {
                                let k = choose|k: int| 0 <= k < doc_pairs(docs@).len() && doc_pairs(docs@)[k].0 == d@;
                                assert(docs@[k].doc@ == d@);
                            }
                        }
                        0
                    },
                }
            },
            None => {
                proof {
                    lemma_keyed_dom(entry_pairs(es), t@);
                    if self.view().contains_key(t@) {
                        let k = choose|k: int| 0 <= k < entry_pairs(es).len() && entry_pairs(es)[k].0 == t@;
                        assert(es[k].term@ == t@);
                    }
                }
                0
            },
        }
    }

    /// Counts the occurrences `tokens` of terms in document `key`.
    fn index_tokens(&mut self, key: &String, tokens: &Vec<String>)
        requires
            old(self).wf(),
            counts_fit(old(self).view(), key@, string_views(tokens@)),
        ensures
            final(self).wf(),
            final(self).view() == add_tokens(old(self).view(), key@, string_views(tokens@)),
            final(self).options() == old(self).options(),
    {
        let ghost m0 = self.view();
        let ghost sv = string_views(tokens@);
        let mut i: usize = 0;
        assert(sv.take(0) =~= Seq::<Seq<char>>::empty());
        while i < tokens.len()
            invariant
                i <= tokens@.len(),
                sv == string_views(tokens@),
                self.wf(),
                self.view() == add_tokens(m0, key@, sv.take(i as int)),
                self.options() == old(self).options(),
                counts_fit(m0, key@, sv),
            decreases tokens.len() - i,
        {
            let ghost t = sv[i as int];
            assert(sv.take(i + 1).drop_last() =~= sv.take(i as int));
            assert(sv.take(i + 1).last() == t);
            proof {
                lemma_add_tokens_freq(m0, key@, sv.take(i + 1));
                lemma_count_prefix(sv, i + 1, t);
                assert(term_freq(m0, t, key@) + count_in(sv, t) <= usize::MAX);
                assert(term_freq(add_tokens(m0, key@, sv.take(i + 1)), t, key@)
                    == term_freq(m0, t, key@) + count_in(sv.take(i + 1), t));
                assert(count_in(sv.take(i + 1), t) == count_in(sv.take(i as int), t) + 1);
                lemma_add_tokens_freq(m0, key@, sv.take(i as int));
            }
            self.add_occurrence(&tokens[i], key);
            i += 1;
        }
        assert(sv.take(tokens.len() as int) =~= sv);
    }
}

/// A term with a positive count occurs in the sequence.
proof fn lemma_count_positive(ts: Seq<Seq<char>>, t: Seq<char>)
    requires
        count_in(ts, t) > 0,
    ensures
        exists|k: int| 0 <= k < ts.len() && ts[k] == t,
    decreases ts.len(),
{
    if ts.last() != t {
        lemma_count_positive(ts.drop_last(), t);
        let k = choose|k: int| 0 <= k < ts.drop_last().len() && ts.drop_last()[k] == t;
        assert(ts[k] == t);
    } else {
        assert(ts[ts.len() - 1] == t);
    }
}

/// The number of strings in `v` equal to `t`.
fn count_occurrences(v: &Vec<String>, t: &String) -> (c: usize)
    ensures
        c == count_in(string_views(v@), t@),
{
    let ghost sv = string_views(v@);
    let mut c: usize = 0;
    let mut i: usize = 0;
    assert(sv.take(0) =~= Seq::<Seq<char>>::empty());
    while i < v.len()
        invariant
            i <= v@.len(),
            sv == string_views(v@),
            c == count_in(sv.take(i as int), t@),
            c <= i,
        decreases v.len() - i,
    {
        assert(sv.take(i + 1).drop_last() =~= sv.take(i as int));
        assert(sv[i as int] == v@[i as int]@);
        if v[i] == *t {
            c += 1;
        }
        i += 1;
    }
    assert(sv.take(v.len() as int) =~= sv);
    c
}

impl FullTextIndex {
    /// Every count fits in `usize`.
    proof fn lemma_freq_bound(&self, t: Seq<char>, d: Seq<char>)
        requires
            self.wf(),
        ensures
            term_freq(self.view(), t, d) <= usize::MAX,
    {
        let es = self.entries@;
        if self.view().contains_key(t) && self.view()[t].contains_key(d) {
            lemma_keyed_dom(entry_pairs(es), t);
            let i = choose|i: int| 0 <= i < entry_pairs(es).len() && entry_pairs(es)[i].0 == t;
            lemma_keyed_get(entry_pairs(es), i);
            let ds = es[i].docs@;
            assert(entry_wf(es[i]));
            lemma_keyed_dom(doc_pairs(ds), d);
            let j = choose|j: int| 0 <= j < doc_pairs(ds).len() && doc_pairs(ds)[j].0 == d;
            lemma_keyed_get(doc_pairs(ds), j);
        }
    }

    /// A well-formed index has an abstract view in which every term has a
    /// document and every count is at least one.
    pub proof fn lemma_index_valid(&self)
        requires
            self.wf(),
        ensures
            valid_index(self.view()),
    {
        let es = self.entries@;
        assert forall|t: Seq<char>| #[trigger] self.view().contains_key(t) implies {
            &&& exists|d: Seq<char>| self.view()[t].contains_key(d)
            &&& forall|d: Seq<char>| #[trigger] self.view()[t].contains_key(d) ==> self.view()[t][d] >= 1
        } by {
            lemma_keyed_dom(entry_pairs(es), t);
            let i = choose|i: int| 0 <= i < entry_pairs(es).len() && entry_pairs(es)[i].0 == t;
            lemma_keyed_get(entry_pairs(es), i);
            let ds = es[i].docs@;
            assert(entry_wf(es[i]));
            lemma_keyed_get(doc_pairs(ds), 0);
            assert(self.view()[t].contains_key(ds[0].doc@));
            assert forall|d: Seq<char>| #[trigger] self.view()[t].contains_key(d) implies self.view()[t][d] >= 1 by {
                lemma_keyed_dom(doc_pairs(ds), d);
                let j = choose|j: int| 0 <= j < doc_pairs(ds).len() && doc_pairs(ds)[j].0 == d;
                lemma_keyed_get(doc_pairs(ds), j);
                assert(ds[j].freq >= 1);
            }
        }
    }

    /// The tokens of `text` under this index's options.
    pub fn tokenize_text(&self, text: &str) -> (r: Vec<String>)
        ensures
            string_views(r@) == tokenize_spec(self.options(), text@),
    {
        tokenize(&self.tokenizer_options, text)
    }

    /// Indexes `content` as document `key`: each of its tokens adds one to
    /// the count of that term in that document.
    pub fn index_document(&mut self, key: &str, content: &str)
        requires
            old(self).wf(),
            counts_fit(old(self).view(), key@, tokenize_spec(old(self).options(), content@)),
        ensures
            final(self).wf(),
            final(self).view() == add_tokens(old(self).view(), key@, tokenize_spec(old(self).options(), content@)),
            final(self).options() == old(self).options(),
    {
        let tokens = tokenize(&self.tokenizer_options, content);
        let key_s = key.to_owned();
        self.index_tokens(&key_s, &tokens);
    }

    /// Indexes `content` as document `key` when no count would leave
    /// `usize`; otherwise leaves the index as it is. Tells which happened.
    pub fn try_index_document(&mut self, key: &str, content: &str) -> (done: bool)
        requires
            old(self).wf(),
        ensures
            final(self).wf(),
            final(self).options() == old(self).options(),
            done == counts_fit(old(self).view(), key@, tokenize_spec(old(self).options(), content@)),
            done ==> final(self).view() == add_tokens(old(self).view(), key@, tokenize_spec(old(self).options(), content@)),
            !done ==> final(self).view() == old(self).view(),
    {
        let tokens = tokenize(&self.tokenizer_options, content);
        let key_s = key.to_owned();
        let ghost sv = string_views(tokens@);
        let ghost m = self.view();
        let mut i: usize = 0;
        while i < tokens.len()
            invariant
                i <= tokens@.len(),
                sv == string_views(tokens@),
                m == self.view(),
                m == old(self).view(),
                self.wf(),
                self.options() == old(self).options(),
                sv == tokenize_spec(old(self).options(), content@),
                key_s@ == key@,
                forall|k: int| 0 <= k < i ==> term_freq(m, #[trigger] sv[k], key@) + count_in(sv, sv[k]) <= usize::MAX,
            decreases tokens.len() - i,
        {
            let c = count_occurrences(&tokens, &tokens[i]);
            let f = self.freq_of(&tokens[i], &key_s);
            assert(sv[i as int] == tokens@[i as int]@);
            if c > usize::MAX - f {
                assert(!counts_fit(m, key@, sv)) by {
                    assert(term_freq(m, sv[i as int], key@) + count_in(sv, sv[i as int]) > usize::MAX);
                }
                return false;
            }
            i += 1;
        }
        assert(counts_fit(m, key@, sv)) by {
            assert forall|t: Seq<char>| #[trigger] term_freq(m, t, key@) + count_in(sv, t) <= usize::MAX by {
                if count_in(sv, t) > 0 {
                    lemma_count_positive(sv, t);
                } else {
                    self.lemma_freq_bound(t, key@);
                }
            }
        }
        self.index_document(key, content);
        true
    }
}

/// The index without document `key`: the document leaves the postings of
/// every term, and terms left without documents go.
pub open spec fn without_doc(m: Map<Seq<char>, Map<Seq<char>, nat>>, key: Seq<char>) -> Map<Seq<char>, Map<Seq<char>, nat>> {
    Map::new(|t: Seq<char>| m.contains_key(t) && has_other_doc(m[t], key), |t: Seq<char>| m[t].remove(key))
}

/// Some document other than `key` has a count.
pub open spec fn has_other_doc(dm: Map<Seq<char>, nat>, key: Seq<char>) -> bool {
    exists|d: Seq<char>| d != key && #[trigger] dm.contains_key(d)
}

proof fn lemma_without_doc_insert(
    m: Map<Seq<char>, Map<Seq<char>, nat>>,
    t: Seq<char>,
    ds: Map<Seq<char>, nat>,
    key: Seq<char>,
)
    requires
        !m.contains_key(t),
    ensures
        has_other_doc(ds, key) ==> without_doc(m.insert(t, ds), key) == without_doc(m, key).insert(t, ds.remove(key)),
        !has_other_doc(ds, key) ==> without_doc(m.insert(t, ds), key) == without_doc(m, key),
{
    let mi = m.insert(t, ds);
    if has_other_doc(ds, key) {
        assert(without_doc(mi, key) =~= without_doc(m, key).insert(t, ds.remove(key)));
    } else {
        assert(without_doc(mi, key) =~= without_doc(m, key));
    }
}

/// The postings of `ds` other than the one for `key`.
fn filter_docs(ds: &Vec<DocFreq>, key: &String) -> (r: Vec<DocFreq>)
    requires
        unique_keys(doc_pairs(ds@)),
        forall|j: int| 0 <= j < ds@.len() ==> #[trigger] ds@[j].freq >= 1,
    ensures
        docs_map(r@) == docs_map(ds@).remove(key@),
        unique_keys(doc_pairs(r@)),
        forall|j: int| 0 <= j < r@.len() ==> #[trigger] r@[j].freq >= 1,
{
    let ghost ps = doc_pairs(ds@);
    let mut r: Vec<DocFreq> = Vec::new();
    let mut j: usize = 0;
    assert(ps.take(0) =~= Seq::<(Seq<char>, nat)>::empty());
    assert(doc_pairs(r@) =~= Seq::<(Seq<char>, nat)>::empty());
    assert(keyed_map(Seq::<(Seq<char>, nat)>::empty()).remove(key@) =~= keyed_map(Seq::<(Seq<char>, nat)>::empty()));
    while j < ds.len()
        invariant
            j <= ds@.len(),
            ps == doc_pairs(ds@),
            unique_keys(ps),
            forall|k: int| 0 <= k < ds@.len() ==> #[trigger] ds@[k].freq >= 1,
            docs_map(r@) == keyed_map(ps.take(j as int)).remove(key@),
            unique_keys(doc_pairs(r@)),
            forall|a: int| 0 <= a < r@.len() ==> #[trigger] r@[a].freq >= 1,
            forall|a: int| 0 <= a < r@.len() ==> exists|b: int| 0 <= b < j && #[trigger] ps[b].0 == (#[trigger] r@[a]).doc@,
        decreases ds.len() - j,
    {
        assert(ps.take(j + 1).drop_last() =~= ps.take(j as int));
        assert(ps.take(j + 1).last() == ps[j as int]);
        let ghost before = r@;
        if ds[j].doc != *key {
            let d = DocFreq { doc: ds[j].doc.clone(), freq: ds[j].freq };
            r.push(d);
            proof {
                assert(doc_pairs(r@) =~= doc_pairs(before).push(ps[j as int]));
                assert(doc_pairs(r@).drop_last() =~= doc_pairs(before));
                assert(docs_map(r@) =~= keyed_map(ps.take(j + 1)).remove(key@));
                assert forall|a: int, b: int| 0 <= a < b < doc_pairs(r@).len() implies doc_pairs(r@)[a].0 != doc_pairs(r@)[b].0 by {
                    if b < before.len() {
                        assert(doc_pairs(before)[a].0 != doc_pairs(before)[b].0);
                    } else {
                        let c = choose|c: int| 0 <= c < j && #[trigger] ps[c].0 == before[a].doc@;
                        assert(ps[c].0 != ps[j as int].0);
                    }
                }
                assert forall|a: int| 0 <= a < r@.len() implies exists|b: int| 0 <= b < j + 1 && #[trigger] ps[b].0 == (#[trigger] r@[a]).doc@ by {
                    if a < before.len() {
                        let c = choose|c: int| 0 <= c < j && #[trigger] ps[c].0 == before[a].doc@;
                        assert(ps[c].0 == r@[a].doc@);
                    } else {
                        assert(ps[j as int].0 == r@[a].doc@);
                    }
                }
            }
        } else {
            proof {
                assert(keyed_map(ps.take(j + 1)).remove(key@) =~= keyed_map(ps.take(j as int)).remove(key@));
            }
        }
        j += 1;
    }
    assert(ps.take(ds.len() as int) =~= ps);
    r
}

impl FullTextIndex {
    /// Removes document `key` from the postings of every term; terms left
    /// without documents are dropped.
    pub fn remove_document(&mut self, key: &str)
        requires
            old(self).wf(),
        ensures
            final(self).wf(),
            final(self).view() == without_doc(old(self).view(), key@),
            final(self).options() == old(self).options(),
    {
        let key_s = key.to_owned();
        let ghost es = self.entries@;
        let ghost eps = entry_pairs(es);
        let mut out: Vec<TermEntry> = Vec::new();
        let mut i: usize = 0;
        assert(eps.take(0) =~= Seq::<(Seq<char>, Map<Seq<char>, nat>)>::empty());
        assert(entry_pairs(out@) =~= Seq::<(Seq<char>, Map<Seq<char>, nat>)>::empty());
        assert(without_doc(keyed_map(eps.take(0)), key@) =~= keyed_map(entry_pairs(out@)));
        while i < self.entries.len()
            invariant
                i <= es.len(),
                self.entries@ == es,
                eps == entry_pairs(es),
                self.wf(),
                key_s@ == key@,
                keyed_map(entry_pairs(out@)) == without_doc(keyed_map(eps.take(i as int)), key@),
                unique_keys(entry_pairs(out@)),
                forall|a: int| 0 <= a < out@.len() ==> #[trigger] entry_wf(out@[a]),
                forall|a: int| 0 <= a < out@.len() ==> exists|b: int| 0 <= b < i && #[trigger] eps[b].0 == (#[trigger] out@[a]).term@,
            decreases es.len() - i,
        {
            let e = &self.entries[i];
            assert(entry_wf(es[i as int]));
            let docs = filter_docs(&e.docs, &key_s);
            assert(eps.take(i + 1).drop_last() =~= eps.take(i as int));
            assert(eps.take(i + 1).last() == eps[i as int]);
            let ghost prev = keyed_map(eps.take(i as int));
            let ghost t = e.term@;
            let ghost dm = docs_map(e.docs@);
            proof {
                lemma_keyed_dom(eps.take(i as int), t);
                if prev.contains_key(t) {
                    let b = choose|b: int| 0 <= b < eps.take(i as int).len() && eps.take(i as int)[b].0 == t;
                    assert(eps[b].0 != eps[i as int].0);
                }
                lemma_without_doc_insert(prev, t, dm, key@);
            }
            if docs.len() > 0 {
                proof {
                    lemma_keyed_get(doc_pairs(docs@), 0);
                    assert(dm.remove(key@).contains_key(docs@[0].doc@));
                }
                let ghost before = out@;
                let ne = TermEntry { term: e.term.clone(), docs };
                let ghost ne2 = ne;
                out.push(ne);
                proof {
                    assert(entry_pairs(out@) =~= entry_pairs(before).push((t, docs_map(ne2.docs@))));
                    assert(entry_pairs(out@).drop_last() =~= entry_pairs(before));
                    assert forall|a: int, b: int| 0 <= a < b < entry_pairs(out@).len() implies entry_pairs(out@)[a].0 != entry_pairs(out@)[b].0 by {
                        if b < before.len() {
                            assert(entry_pairs(before)[a].0 != entry_pairs(before)[b].0);
                        } else {
                            let c = choose|c: int| 0 <= c < i && #[trigger] eps[c].0 == before[a].term@;
                            assert(eps[c].0 != eps[i as int].0);
                        }
                    }
                    assert forall|a: int| 0 <= a < out@.len() implies #[trigger] entry_wf(out@[a]) by {
                        if a < before.len() {
                            assert(out@[a] == before[a]);
                        }
                    }
                    assert forall|a: int| 0 <= a < out@.len() implies exists|b: int| 0 <= b < i + 1 && #[trigger] eps[b].0 == (#[trigger] out@[a]).term@ by {
                        if a < before.len() {
                            let c = choose|c: int| 0 <= c < i && #[trigger] eps[c].0 == before[a].term@;
                            assert(eps[c].0 == out@[a].term@);
                        } else {
                            assert(eps[i as int].0 == out@[a].term@);
                        }
                    }
                }
            } else {
                proof {
                    if has_other_doc(dm, key@) {
                        let d = choose|d: Seq<char>| d != key@ && #[trigger] dm.contains_key(d);
                        assert(dm.remove(key@).contains_key(d));
                        lemma_keyed_dom(doc_pairs(docs@), d);
                    }
                }
            }
            i += 1;
        }
        assert(eps.take(es.len() as int) =~= eps);
        self.entries = out;
    }
}

/// Document `d` has a posting for term `t`.
pub open spec fn has_posting(m: Map<Seq<char>, Map<Seq<char>, nat>>, t: Seq<char>, d: Seq<char>) -> bool {
    m.contains_key(t) && m[t].contains_key(d)
}

/// The score of document `d` for the query tokens `qs`: for each token,
/// the count of that term in the document.
pub open spec fn query_score(m: Map<Seq<char>, Map<Seq<char>, nat>>, qs: Seq<Seq<char>>, d: Seq<char>) -> nat
    decreases qs.len(),
{
    if qs.len() == 0 {
        0
    } else {
        query_score(m, qs.drop_last(), d) + term_freq(m, qs.last(), d)
    }
}

/// The query tokens, in order, that document `d` has postings for.
pub open spec fn query_matches(m: Map<Seq<char>, Map<Seq<char>, nat>>, qs: Seq<Seq<char>>, d: Seq<char>) -> Seq<Seq<char>>
    decreases qs.len(),
{
    if qs.len() == 0 {
        seq![]
    } else {
        let r = query_matches(m, qs.drop_last(), d);
        if has_posting(m, qs.last(), d) {
            r.push(qs.last())
        } else {
            r
        }
    }
}

/// A document found by a search, with its score and the query tokens it
/// matched. The index fills in no metadata; a store that has it may.
#[derive(Clone, Debug)]
pub struct SearchResult {
    pub key: String,
    pub score: u128,
    pub matches: Vec<String>,
    pub metadata: Option<BlobMetadata>,
}

/// `r` is the search result for its document: the document matched at
/// least one token, and the score and matched tokens are those of the
/// document.
pub open spec fn exact_result(m: Map<Seq<char>, Map<Seq<char>, nat>>, qs: Seq<Seq<char>>, r: SearchResult) -> bool {
    &&& query_matches(m, qs, r.key@).len() > 0
    &&& r.score == query_score(m, qs, r.key@)
    &&& string_views(r.matches@) == query_matches(m, qs, r.key@)
    &&& r.metadata is None
}

/// No two results are for the same document.
pub open spec fn distinct_results(rs: Seq<SearchResult>) -> bool {
    forall|a: int, b: int| 0 <= a < b < rs.len() ==> rs[a].key@ != rs[b].key@
}

/// The position of the result for document `d`, if any.
fn find_result(rs: &Vec<SearchResult>, d: &String) -> (r: Option<usize>)
    ensures
        match r {
            Some(k) => k < rs@.len() && rs@[k as int].key@ == d@,
            None => forall|k: int| 0 <= k < rs@.len() ==> rs@[k].key@ != d@,
        },
{
    let mut k: usize = 0;
    while k < rs.len()
        invariant
            k <= rs@.len(),
            forall|a: int| 0 <= a < k ==> rs@[a].key@ != d@,
        decreases rs.len() - k,
    {
        if rs[k].key == *d {
            return Some(k);
        }
        k += 1;
    }
    None
}

/// Adding a token to the query adds its count to every score.
proof fn lemma_query_step(m: Map<Seq<char>, Map<Seq<char>, nat>>, qs: Seq<Seq<char>>, i: int, d: Seq<char>)
    requires
        0 <= i < qs.len(),
    ensures
        query_score(m, qs.take(i + 1), d) == query_score(m, qs.take(i), d) + term_freq(m, qs[i], d),
        query_matches(m, qs.take(i + 1), d) == (if has_posting(m, qs[i], d) {
            query_matches(m, qs.take(i), d).push(qs[i])
        } else {
            query_matches(m, qs.take(i), d)
        }),
{
    assert(qs.take(i + 1).drop_last() =~= qs.take(i));
    assert(qs.take(i + 1).last() == qs[i]);
}

/// Every token adds at most `usize::MAX` to a score of a well-formed index.
proof fn lemma_query_score_bound(idx: &FullTextIndex, qs: Seq<Seq<char>>, d: Seq<char>)
    requires
        idx.wf(),
    ensures
        query_score(idx.view(), qs, d) <= qs.len() * 18446744073709551615,
    decreases qs.len(),
{
    if qs.len() > 0 {
        lemma_query_score_bound(idx, qs.drop_last(), d);
        idx.lemma_freq_bound(qs.last(), d);
    }
}

/// Some posting among the first `j` of `ds` is for document `d`.
pub open spec fn done_before(ds: Seq<DocFreq>, j: int, d: Seq<char>) -> bool {
    exists|b: int| 0 <= b < j && ds[b].doc@ == d
}

/// While the postings `ds` of term `t` are being added: `r` is the result
/// for its document after the query tokens `pre` and the first `j`
/// postings, and its score is at most `bound`.
pub open spec fn pending_result(
    m: Map<Seq<char>, Map<Seq<char>, nat>>,
    pre: Seq<Seq<char>>,
    t: Seq<char>,
    ds: Seq<DocFreq>,
    j: int,
    r: SearchResult,
    bound: int,
) -> bool {
    let d = r.key@;
    let done = done_before(ds, j, d);
    &&& r.score == query_score(m, pre, d) + (if done { term_freq(m, t, d) } else { 0 })
    &&& string_views(r.matches@) == (if done { query_matches(m, pre, d).push(t) } else { query_matches(m, pre, d) })
    &&& (query_matches(m, pre, d).len() > 0 || done)
    &&& r.metadata is None
    &&& r.score <= bound
}

/// A document that matches no token scores zero.
proof fn lemma_score_without_matches(m: Map<Seq<char>, Map<Seq<char>, nat>>, qs: Seq<Seq<char>>, d: Seq<char>)
    requires
        query_matches(m, qs, d).len() == 0,
    ensures
        query_score(m, qs, d) == 0,
    decreases qs.len(),
{
    if qs.len() > 0 {
        lemma_score_without_matches(m, qs.drop_last(), d);
    }
}

impl FullTextIndex {
    /// The results for every document that matches a query token, in no
    /// particular order.
    #[verifier::rlimit(40)]
    fn collect_results(&self, qs: &Vec<String>) -> (acc: Vec<SearchResult>)
        requires
            self.wf(),
        ensures
            forall|k: int| 0 <= k < acc@.len() ==> #[trigger] exact_result(self.view(), string_views(qs@), acc@[k]),
            distinct_results(acc@),
            forall|d: Seq<char>| #[trigger] query_matches(self.view(), string_views(qs@), d).len() > 0 ==>
                exists|k: int| 0 <= k < acc@.len() && acc@[k].key@ == d,
    {
        let ghost m = self.view();
        let ghost sv = string_views(qs@);
        let ghost es = self.entries@;
        let mut acc: Vec<SearchResult> = Vec::new();
        let mut i: usize = 0;
        assert(sv.take(0) =~= Seq::<Seq<char>>::empty());
        while i < qs.len()
            invariant
                i <= qs@.len(),
                sv == string_views(qs@),
                m == self.view(),
                es == self.entries@,
                self.wf(),
                forall|k: int| 0 <= k < acc@.len() ==> #[trigger] exact_result(m, sv.take(i as int), acc@[k]),
                distinct_results(acc@),
                forall|d: Seq<char>| #[trigger] query_matches(m, sv.take(i as int), d).len() > 0 ==>
                    exists|k: int| 0 <= k < acc@.len() && acc@[k].key@ == d,
            decreases qs.len() - i,
        {
            let t = &qs[i];
            assert(sv[i as int] == t@);
            proof {
                assert forall|d: Seq<char>| true implies {
                    &&& query_score(m, sv.take(i + 1), d) == query_score(m, sv.take(i as int), d) + term_freq(m, sv[i as int], d)
                    &&& query_matches(m, sv.take(i + 1), d) == (if has_posting(m, sv[i as int], d) {
                        query_matches(m, sv.take(i as int), d).push(sv[i as int])
                    } else {
                        query_matches(m, sv.take(i as int), d)
                    })
                } by {
                    lemma_query_step(m, sv, i as int, d);
                }
            }
            match find_term(&self.entries, t) {
                None => {
                    proof {
                        lemma_keyed_dom(entry_pairs(es), t@);
                        if m.contains_key(t@) {
                            let b = choose|b: int| 0 <= b < entry_pairs(es).len() && entry_pairs(es)[b].0 == t@;
                            assert(es[b].term@ == t@);
                        }
                        assert forall|k: int| 0 <= k < acc@.len() implies #[trigger] exact_result(m, sv.take(i + 1), acc@[k]) by {
                            assert(exact_result(m, sv.take(i as int), acc@[k]));
                        }
                        assert forall|d: Seq<char>| #[trigger] query_matches(m, sv.take(i + 1), d).len() > 0 implies
                            exists|k: int| 0 <= k < acc@.len() && acc@[k].key@ == d by {
                            assert(query_matches(m, sv.take(i as int), d).len() > 0);
                        }
                    }
                },
                Some(ti) => {
                    let ds = &self.entries[ti].docs;
                    proof {
                        lemma_keyed_get(entry_pairs(es), ti as int);
                        assert(entry_wf(es[ti as int]));
                    }
                    let ghost dm = docs_map(ds@);
                    assert(m[t@] == dm);
                    let ghost pre = sv.take(i as int);
                    proof {
                        assert forall|k: int| 0 <= k < acc@.len() implies #[trigger] pending_result(m, pre, t@, ds@, 0, acc@[k], (i + 1) * 18446744073709551615) by {
                            assert(exact_result(m, pre, acc@[k]));
                            lemma_query_score_bound(self, pre, acc@[k].key@);
                        }
                    }
                    let mut j: usize = 0;
                    while j < ds.len()
                        invariant
                            j <= ds@.len(),
                            i < qs@.len(),
                            sv == string_views(qs@),
                            pre == sv.take(i as int),
                            sv[i as int] == t@,
                            m == self.view(),
                            self.wf(),
                            m.contains_key(t@),
                            m[t@] == dm,
                            dm == docs_map(ds@),
                            unique_keys(doc_pairs(ds@)),
                            forall|k: int| 0 <= k < acc@.len() ==> #[trigger] pending_result(m, pre, t@, ds@, j as int, acc@[k], (i + 1) * 18446744073709551615),
                            distinct_results(acc@),
                            forall|d: Seq<char>| #[trigger] query_matches(m, pre, d).len() > 0 ==>
                                exists|k: int| 0 <= k < acc@.len() && acc@[k].key@ == d,
                            forall|b: int| 0 <= b < j ==> exists|k: int| 0 <= k < acc@.len() && acc@[k].key@ == (#[trigger] ds@[b]).doc@,
                        decreases ds.len() - j,
                    {
                        let d = &ds[j].doc;
                        let f = ds[j].freq;
                        proof {
                            lemma_keyed_get(doc_pairs(ds@), j as int);
                            assert(term_freq(m, t@, d@) == f);
                            assert forall|b: int| 0 <= b < j implies ds@[b].doc@ != d@ by {
                                assert(doc_pairs(ds@)[b].0 != doc_pairs(ds@)[j as int].0);
                            }
                            assert(!done_before(ds@, j as int, d@));
                            assert(done_before(ds@, j + 1, d@)) by {
                                assert(ds@[j as int].doc@ == d@);
                            }
                            assert forall|e: Seq<char>| e != d@ implies done_before(ds@, j + 1, e) == done_before(ds@, j as int, e) by {
                                if done_before(ds@, j + 1, e) {
                                    let b = choose|b: int| 0 <= b < j + 1 && ds@[b].doc@ == e;
                                    assert(b < j);
                                }
                            }
                        }
                        let ghost before = acc@;
                        match find_result(&acc, d) {
                            Some(k) => {
                                assert(pending_result(m, pre, t@, ds@, j as int, before[k as int], (i + 1) * 18446744073709551615));
                                let mut r = acc.remove(k);
                                proof {
                                    lemma_query_score_bound(self, pre, d@);
                                }
                                r.score = r.score + f as u128;
                                let ghost old_matches = r.matches@;
                                r.matches.push(t.clone());
                                assert(string_views(r.matches@) =~= string_views(old_matches).push(t@));
                                let ghost r2 = r;
                                acc.insert(k, r);
                                proof {
                                    assert(acc@ =~= before.update(k as int, r2));
                                    assert(pending_result(m, pre, t@, ds@, j + 1, r2, (i + 1) * 18446744073709551615));
                                    assert forall|a: int| 0 <= a < acc@.len() implies #[trigger] pending_result(m, pre, t@, ds@, j + 1, acc@[a], (i + 1) * 18446744073709551615) by {
                                        if a != k {
                                            assert(acc@[a] == before[a]);
                                            assert(pending_result(m, pre, t@, ds@, j as int, before[a], (i + 1) * 18446744073709551615));
                                            assert(before[a].key@ != before[k as int].key@);
                                        }
                                    }
                                    assert forall|a: int, b: int| 0 <= a < b < acc@.len() implies acc@[a].key@ != acc@[b].key@ by {
                                        assert(before[a].key@ != before[b].key@);
                                    }
                                    assert forall|b: int| 0 <= b < j + 1 implies exists|kk: int| 0 <= kk < acc@.len() && acc@[kk].key@ == (#[trigger] ds@[b]).doc@ by {
                                        if b < j {
                                            let k0 = choose|kk: int| 0 <= kk < before.len() && before[kk].key@ == ds@[b].doc@;
                                            assert(acc@[k0].key@ == before[k0].key@);
                                        } else {
                                            assert(acc@[k as int].key@ == d@);
                                        }
                                    }
                                    assert forall|e: Seq<char>| #[trigger] query_matches(m, pre, e).len() > 0 implies
                                        exists|kk: int| 0 <= kk < acc@.len() && acc@[kk].key@ == e by {
                                        let k0 = choose|kk: int| 0 <= kk < before.len() && before[kk].key@ == e;
                                        assert(acc@[k0].key@ == before[k0].key@);
                                    }
                                }
                            },
                            None => {
                                let mut ms: Vec<String> = Vec::new();
                                ms.push(t.clone());
                                assert(string_views(ms@) =~= seq![t@]);
                                let r = SearchResult { key: d.clone(), score: f as u128, matches: ms, metadata: None };
                                proof {
                                    if query_matches(m, pre, d@).len() > 0 {
                                        let k0 = choose|kk: int| 0 <= kk < before.len() && before[kk].key@ == d@;
                                        assert(before[k0].key@ != d@);
                                    }
                                    lemma_score_without_matches(m, pre, d@);
                                    assert(query_matches(m, pre, d@) =~= Seq::<Seq<char>>::empty());
                                    assert(query_matches(m, pre, d@).push(t@) =~= seq![t@]);
                                    assert(pending_result(m, pre, t@, ds@, j + 1, r, (i + 1) * 18446744073709551615));
                                }
                                acc.push(r);
                                proof {
                                    assert forall|a: int| 0 <= a < acc@.len() implies #[trigger] pending_result(m, pre, t@, ds@, j + 1, acc@[a], (i + 1) * 18446744073709551615) by {
                                        if a < before.len() {
                                            assert(acc@[a] == before[a]);
                                            assert(pending_result(m, pre, t@, ds@, j as int, before[a], (i + 1) * 18446744073709551615));
                                            assert(before[a].key@ != d@);
                                        }
                                    }
                                    assert forall|a: int, b: int| 0 <= a < b < acc@.len() implies acc@[a].key@ != acc@[b].key@ by {
                                        if b < before.len() {
                                            assert(before[a].key@ != before[b].key@);
                                        } else {
                                            assert(before[a].key@ != d@);
                                        }
                                    }
                                    assert forall|b: int| 0 <= b < j + 1 implies exists|kk: int| 0 <= kk < acc@.len() && acc@[kk].key@ == (#[trigger] ds@[b]).doc@ by {
                                        if b < j {
                                            let k0 = choose|kk: int| 0 <= kk < before.len() && before[kk].key@ == ds@[b].doc@;
                                            assert(acc@[k0] == before[k0]);
                                        } else {
                                            assert(acc@[before.len() as int].key@ == d@);
                                        }
                                    }
                                    assert forall|e: Seq<char>| #[trigger] query_matches(m, pre, e).len() > 0 implies
                                        exists|kk: int| 0 <= kk < acc@.len() && acc@[kk].key@ == e by {
                                        let k0 = choose|kk: int| 0 <= kk < before.len() && before[kk].key@ == e;
                                        assert(acc@[k0] == before[k0]);
                                    }
                                }
                            },
                        }
                        j += 1;
                    }
                    proof {
                        assert forall|e: Seq<char>| true implies
                            ((exists|b: int| 0 <= b < ds@.len() && ds@[b].doc@ == e) <==> has_posting(m, t@, e)) by {
                            lemma_keyed_dom(doc_pairs(ds@), e);
                            if exists|b: int| 0 <= b < ds@.len() && ds@[b].doc@ == e {
                                let b = choose|b: int| 0 <= b < ds@.len() && ds@[b].doc@ == e;
                                assert(doc_pairs(ds@)[b].0 == e);
                            }
                            if dm.contains_key(e) {
                                let b = choose|b: int| 0 <= b < doc_pairs(ds@).len() && doc_pairs(ds@)[b].0 == e;
                                assert(ds@[b].doc@ == e);
                            }
                        }
                        assert forall|k: int| 0 <= k < acc@.len() implies #[trigger] exact_result(m, sv.take(i + 1), acc@[k]) by {
                            let e = acc@[k].key@;
                            assert(pending_result(m, pre, t@, ds@, ds@.len() as int, acc@[k], (i + 1) * 18446744073709551615));
                            assert(done_before(ds@, ds@.len() as int, e) == has_posting(m, t@, e));
                            if has_posting(m, t@, e) {
                                assert(query_matches(m, sv.take(i + 1), e).len() > 0);
                            } else {
                                assert(term_freq(m, t@, e) == 0);
                            }
                        }
                        assert forall|e: Seq<char>| #[trigger] query_matches(m, sv.take(i + 1), e).len() > 0 implies
                            exists|k: int| 0 <= k < acc@.len() && acc@[k].key@ == e by {
                            if has_posting(m, t@, e) {
                                let b = choose|b: int| 0 <= b < ds@.len() && ds@[b].doc@ == e;
                                assert(ds@[b].doc@ == e);
                            } else {
                                assert(query_matches(m, sv.take(i as int), e).len() > 0);
                            }
                        }
                    }
                },
            }
            i += 1;
        }
        assert(sv.take(qs.len() as int) =~= sv);
        acc
    }
}

/// The position of the first result with the highest score.
fn best_index(rs: &Vec<SearchResult>) -> (b: usize)
    requires
        rs@.len() > 0,
    ensures
        b < rs@.len(),
        forall|k: int| 0 <= k < rs@.len() ==> rs@[k].score <= rs@[b as int].score,
{
    let mut b: usize = 0;
    let mut k: usize = 1;
    while k < rs.len()
        invariant
            0 < k <= rs@.len(),
            b < k,
            forall|a: int| 0 <= a < k ==> rs@[a].score <= rs@[b as int].score,
        decreases rs.len() - k,
    {
        if rs[k].score > rs[b].score {
            b = k;
        }
        k += 1;
    }
    b
}

impl FullTextIndex {
    /// Searches for the tokens of `query`. Every document with a posting
    /// for at least one query token is a candidate; its score is the sum,
    /// over the query tokens, of the count of that term in the document,
    /// and its matches are the query tokens it has postings for. At most
    /// `limit` candidates come back, highest score first; a candidate is
    /// left out only when `limit` others came back and none of them
    /// scores lower. (Among equal scores the order is not stated.)
    pub fn search(&self, query: &str, limit: usize) -> (r: Vec<SearchResult>)
        requires
            self.wf(),
        ensures
            forall|k: int| 0 <= k < r@.len() ==> #[trigger] exact_result(self.view(), tokenize_spec(self.options(), query@), r@[k]),
            distinct_results(r@),
            forall|a: int, b: int| 0 <= a < b < r@.len() ==> r@[a].score >= r@[b].score,
            r@.len() <= limit,
            forall|d: Seq<char>| #[trigger] query_matches(self.view(), tokenize_spec(self.options(), query@), d).len() > 0
                && (forall|k: int| 0 <= k < r@.len() ==> r@[k].key@ != d) ==> {
                &&& r@.len() == limit
                &&& limit > 0 ==> query_score(self.view(), tokenize_spec(self.options(), query@), d) <= r@[limit - 1].score
            },
    {
        let qs = tokenize(&self.tokenizer_options, query);
        let ghost m = self.view();
        let ghost sv = string_views(qs@);
        let mut rest = self.collect_results(&qs);
        let mut out: Vec<SearchResult> = Vec::new();
        while out.len() < limit && rest.len() > 0
            invariant
                sv == string_views(qs@),
                m == self.view(),
                out@.len() <= limit,
                forall|k: int| 0 <= k < out@.len() ==> #[trigger] exact_result(m, sv, out@[k]),
                forall|k: int| 0 <= k < rest@.len() ==> #[trigger] exact_result(m, sv, rest@[k]),
                distinct_results(out@),
                distinct_results(rest@),
                forall|a: int, b: int| 0 <= a < out@.len() && 0 <= b < rest@.len() ==> out@[a].key@ != rest@[b].key@,
                forall|a: int, b: int| 0 <= a < b < out@.len() ==> out@[a].score >= out@[b].score,
                forall|a: int, b: int| 0 <= a < out@.len() && 0 <= b < rest@.len() ==> rest@[b].score <= out@[a].score,
                forall|d: Seq<char>| #[trigger] query_matches(m, sv, d).len() > 0 ==>
                    (exists|k: int| 0 <= k < out@.len() && out@[k].key@ == d)
                    || (exists|k: int| 0 <= k < rest@.len() && rest@[k].key@ == d),
            decreases rest.len(),
        {
            let b = best_index(&rest);
            let ghost ro = rest@;
            let ghost oo = out@;
            let x = rest.remove(b);
            out.push(x);
            proof {
                assert forall|k: int| 0 <= k < rest@.len() implies #[trigger] exact_result(m, sv, rest@[k]) by {
                    if k < b {
                        assert(rest@[k] == ro[k]);
                    } else {
                        assert(rest@[k] == ro[k + 1]);
                    }
                }
                assert forall|k: int| 0 <= k < out@.len() implies #[trigger] exact_result(m, sv, out@[k]) by {
                    if k < oo.len() {
                        assert(out@[k] == oo[k]);
                    }
                }
                assert forall|a: int, c: int| 0 <= a < c < rest@.len() implies rest@[a].key@ != rest@[c].key@ by {
                    let a0 = if a < b { a } else { a + 1 };
                    let c0 = if c < b { c } else { c + 1 };
                    assert(rest@[a] == ro[a0] && rest@[c] == ro[c0]);
                    assert(ro[a0].key@ != ro[c0].key@);
                }
                assert forall|a: int, c: int| 0 <= a < c < out@.len() implies out@[a].key@ != out@[c].key@ by {
                    if c < oo.len() {
                        assert(oo[a].key@ != oo[c].key@);
                    } else {
                        assert(oo[a].key@ != ro[b as int].key@);
                    }
                }
                assert forall|a: int, c: int| 0 <= a < out@.len() && 0 <= c < rest@.len() implies out@[a].key@ != rest@[c].key@ by {
                    let c0 = if c < b { c } else { c + 1 };
                    assert(rest@[c] == ro[c0]);
                    if a < oo.len() {
                        assert(oo[a].key@ != ro[c0].key@);
                    } else {
                        assert(ro[b as int].key@ != ro[c0].key@);
                    }
                }
                assert forall|a: int, c: int| 0 <= a < c < out@.len() implies out@[a].score >= out@[c].score by {
                    if c < oo.len() {
                        assert(oo[a].score >= oo[c].score);
                    } else {
                        assert(ro[b as int].score <= oo[a].score);
                    }
                }
                assert forall|a: int, c: int| 0 <= a < out@.len() && 0 <= c < rest@.len() implies rest@[c].score <= out@[a].score by {
                    let c0 = if c < b { c } else { c + 1 };
                    assert(rest@[c] == ro[c0]);
                    if a < oo.len() {
                        assert(ro[c0].score <= oo[a].score);
                    } else {
                        assert(ro[c0].score <= ro[b as int].score);
                    }
                }
                assert forall|d: Seq<char>| #[trigger] query_matches(m, sv, d).len() > 0 implies
                    (exists|k: int| 0 <= k < out@.len() && out@[k].key@ == d)
                    || (exists|k: int| 0 <= k < rest@.len() && rest@[k].key@ == d) by {
                    if exists|k: int| 0 <= k < oo.len() && oo[k].key@ == d {
                        let k = choose|k: int| 0 <= k < oo.len() && oo[k].key@ == d;
                        assert(out@[k] == oo[k]);
                    } else {
                        let k = choose|k: int| 0 <= k < ro.len() && ro[k].key@ == d;
                        if k < b {
                            assert(rest@[k] == ro[k]);
                        } else if k == b {
                            assert(out@[oo.len() as int] == ro[k]);
                        } else {
                            assert(rest@[k - 1] == ro[k]);
                        }
                    }
                }
            }
        }
        proof {
            assert forall|d: Seq<char>| #[trigger] query_matches(m, sv, d).len() > 0
                && (forall|k: int| 0 <= k < out@.len() ==> out@[k].key@ != d) implies {
                &&& out@.len() == limit
                &&& limit > 0 ==> query_score(m, sv, d) <= out@[limit - 1].score
            } by {
                let k = choose|k: int| 0 <= k < rest@.len() && rest@[k].key@ == d;
                assert(exact_result(m, sv, rest@[k]));
                if limit > 0 {
                    assert(rest@[k].score <= out@[limit - 1].score);
                }
            }
        }
        out
    }
}

/// The (term, document) pairs that have a posting.
pub open spec fn index_pairs(m: Map<Seq<char>, Map<Seq<char>, nat>>) -> Set<(Seq<char>, Seq<char>)> {
    Set::new(|p: (Seq<char>, Seq<char>)| m.contains_key(p.0) && m[p.0].contains_key(p.1))
}

/// The number of postings held by the entries.
pub open spec fn posting_total(es: Seq<TermEntry>) -> nat
    decreases es.len(),
{
    if es.len() == 0 {
        0
    } else {
        posting_total(es.drop_last()) + es.last().docs@.len()
    }
}

/// Counts and sizes of an index.
#[derive(Clone, Debug)]
pub struct IndexStatistics {
    pub total_terms: usize,
    pub total_document_references: usize,
    pub unique_terms: usize,
}

proof fn lemma_pairs_len(es: Seq<TermEntry>)
    requires
        unique_keys(entry_pairs(es)),
        forall|i: int| 0 <= i < es.len() ==> #[trigger] entry_wf(es[i]),
    ensures
        index_pairs(keyed_map(entry_pairs(es))).finite(),
        index_pairs(keyed_map(entry_pairs(es))).len() == posting_total(es),
    decreases es.len(),
{
    broadcast use vstd::set_lib::group_set_properties;
    let eps = entry_pairs(es);
    if es.len() == 0 {
        assert(index_pairs(keyed_map(eps)) =~= Set::<(Seq<char>, Seq<char>)>::empty());
    } else {
        let pre = es.drop_last();
        assert(entry_pairs(pre) =~= eps.drop_last());
        lemma_unique_drop_last(eps);
        assert forall|i: int| 0 <= i < pre.len() implies #[trigger] entry_wf(pre[i]) by {
            assert(pre[i] == es[i]);
        }
        lemma_pairs_len(pre);
        let m0 = keyed_map(entry_pairs(pre));
        let e = es.last();
        let t = e.term@;
        assert(entry_wf(es[es.len() - 1]));
        let dm = docs_map(e.docs@);
        lemma_keyed_dom(entry_pairs(pre), t);
        assert(!m0.contains_key(t)) by {
            if m0.contains_key(t) {
                let i = choose|i: int| 0 <= i < entry_pairs(pre).len() && entry_pairs(pre)[i].0 == t;
                assert(eps[i].0 != eps[es.len() - 1].0);
            }
        }
        assert(keyed_map(eps) == m0.insert(t, dm));
        let f = |d: Seq<char>| (t, d);
        let extra = dm.dom().map(f);
        lemma_keyed_len(doc_pairs(e.docs@));
        assert(vstd::relations::injective_on(f, dm.dom()));
        vstd::set_lib::lemma_map_size(dm.dom(), extra, f);
        assert(index_pairs(keyed_map(eps)) =~= index_pairs(m0) + extra) by {
            assert forall|p: (Seq<char>, Seq<char>)| #[trigger] (index_pairs(m0) + extra).contains(p) implies index_pairs(keyed_map(eps)).contains(p) by {
                if extra.contains(p) {
                    let d = choose|d: Seq<char>| dm.dom().contains(d) && f(d) == p;
                }
            }
            assert forall|p: (Seq<char>, Seq<char>)| #[trigger] index_pairs(keyed_map(eps)).contains(p) implies (index_pairs(m0) + extra).contains(p) by {
                if p.0 == t {
                    assert(dm.dom().contains(p.1));
                    assert(f(p.1) == p);
                }
            }
        }
        assert(index_pairs(m0).disjoint(extra)) by {
            assert forall|p: (Seq<char>, Seq<char>)| !(index_pairs(m0).contains(p) && extra.contains(p)) by {
                if extra.contains(p) {
                    let d = choose|d: Seq<char>| dm.dom().contains(d) && f(d) == p;
                }
            }
        }
        vstd::set_lib::lemma_set_disjoint_lens(index_pairs(m0), extra);
    }
}

impl FullTextIndex {
    /// The options that cut text into terms.
    pub fn tokenizer_options(&self) -> (r: &TokenizerOptions)
        ensures
            *r == *self.options(),
    {
        &self.tokenizer_options
    }

    /// The term entries, whose pairs make up the abstract index.
    pub fn entries(&self) -> (r: &Vec<TermEntry>)
        ensures
            keyed_map(entry_pairs(r@)) == self.view(),
            r@ == self.entry_list(),
    {
        &self.entries
    }

    /// Sets the count of term `term` in document `doc` to `freq`, adding
    /// the term or the document as needed.
    pub fn set_posting(&mut self, term: &str, doc: &str, freq: usize)
        requires
            old(self).wf(),
            freq >= 1,
        ensures
            final(self).wf(),
            final(self).view() == put_posting(old(self).view(), term@, doc@, freq as nat),
            final(self).options() == old(self).options(),
    {
        let t = term.to_owned();
        let d = doc.to_owned();
        self.put_freq(&t, &d, freq);
    }

    /// The number of terms and of (term, document) postings.
    pub fn statistics(&self) -> (s: IndexStatistics)
        requires
            self.wf(),
            index_pairs(self.view()).len() <= usize::MAX,
        ensures
            s.total_terms == self.view().dom().len(),
            s.unique_terms == self.view().dom().len(),
            s.total_document_references == index_pairs(self.view()).len(),
    {
        proof {
            lemma_keyed_len(entry_pairs(self.entries@));
            lemma_pairs_len(self.entries@);
        }
        let mut total: usize = 0;
        let mut i: usize = 0;
        assert(self.entries@.take(0) =~= Seq::<TermEntry>::empty());
        while i < self.entries.len()
            invariant
                i <= self.entries@.len(),
                total == posting_total(self.entries@.take(i as int)),
                posting_total(self.entries@) <= usize::MAX,
            decreases self.entries.len() - i,
        {
            assert(self.entries@.take(i + 1).drop_last() =~= self.entries@.take(i as int));
            proof {
                lemma_posting_total_prefix(self.entries@, i + 1);
            }
            total = total + self.entries[i].docs.len();
            i += 1;
        }
        assert(self.entries@.take(self.entries@.len() as int) =~= self.entries@);
        let n = self.entries.len();
        proof {
            assert(entry_pairs(self.entries@).len() == n);
        }
        IndexStatistics { total_terms: n, total_document_references: total, unique_terms: n }
    }
}

proof fn lemma_posting_total_prefix(es: Seq<TermEntry>, k: int)
    requires
        0 <= k <= es.len(),
    ensures
        posting_total(es.take(k)) <= posting_total(es),
    decreases es.len(),
{
    if k < es.len() {
        assert(es.drop_last().take(k) =~= es.take(k));
        lemma_posting_total_prefix(es.drop_last(), k);
    } else {
        assert(es.take(k) =~= es);
    }
}

/// What counting occurrences for document `key` changes: a term is in the
/// index afterwards when it was before or occurs; its documents are those
/// it had, plus `key` when it occurs; other documents keep their counts.
pub proof fn lemma_add_tokens_shape(m: Map<Seq<char>, Map<Seq<char>, nat>>, key: Seq<char>, ts: Seq<Seq<char>>)
    ensures
        forall|t: Seq<char>| #[trigger] add_tokens(m, key, ts).contains_key(t) <==> (m.contains_key(t) || count_in(ts, t) > 0),
        forall|t: Seq<char>, d: Seq<char>| add_tokens(m, key, ts).contains_key(t) ==> (#[trigger] add_tokens(m, key, ts)[t].contains_key(d)
            <==> ((m.contains_key(t) && m[t].contains_key(d)) || (d == key && count_in(ts, t) > 0))),
        forall|t: Seq<char>, d: Seq<char>| d != key && m.contains_key(t) && m[t].contains_key(d) ==> #[trigger] add_tokens(m, key, ts)[t][d] == m[t][d],
    decreases ts.len(),
{
    if ts.len() > 0 {
        lemma_add_tokens_shape(m, key, ts.drop_last());
        let p = add_tokens(m, key, ts.drop_last());
        let x = ts.last();
        let a = add_tokens(m, key, ts);
        assert(a == add_token(p, key, x));
        assert forall|t: Seq<char>| #[trigger] a.contains_key(t) <==> (m.contains_key(t) || count_in(ts, t) > 0) by {
            assert(p.contains_key(t) <==> (m.contains_key(t) || count_in(ts.drop_last(), t) > 0));
        }
        assert forall|t: Seq<char>, d: Seq<char>| a.contains_key(t) implies (#[trigger] a[t].contains_key(d)
            <==> ((m.contains_key(t) && m[t].contains_key(d)) || (d == key && count_in(ts, t) > 0))) by {
            if t == x {
                if p.contains_key(t) {
                    assert(p[t].contains_key(d) <==> ((m.contains_key(t) && m[t].contains_key(d)) || (d == key && count_in(ts.drop_last(), t) > 0)));
                } else {
                    assert(!m.contains_key(t));
                }
            } else {
                assert(p.contains_key(t));
                assert(p[t].contains_key(d) <==> ((m.contains_key(t) && m[t].contains_key(d)) || (d == key && count_in(ts.drop_last(), t) > 0)));
            }
        }
        assert forall|t: Seq<char>, d: Seq<char>| d != key && m.contains_key(t) && m[t].contains_key(d) implies #[trigger] a[t][d] == m[t][d] by {
            assert(p.contains_key(t));
            assert(p[t].contains_key(d));
            assert(p[t][d] == m[t][d]);
        }
    }
}

/// A document is a candidate for every query that shares a token with the
/// text it was indexed with.
pub proof fn lemma_indexed_doc_matches(
    m: Map<Seq<char>, Map<Seq<char>, nat>>,
    key: Seq<char>,
    ts: Seq<Seq<char>>,
    qs: Seq<Seq<char>>,
    i: int,
)
    requires
        0 <= i < qs.len(),
        ts.contains(qs[i]),
    ensures
        query_matches(add_tokens(m, key, ts), qs, key).len() > 0,
{
    let j = choose|j: int| 0 <= j < ts.len() && ts[j] == qs[i];
    lemma_count_prefix(ts, j + 1, qs[i]);
    assert(ts.take(j + 1).drop_last() =~= ts.take(j));
    assert(count_in(ts.take(j + 1), qs[i]) >= 1);
    lemma_add_tokens_shape(m, key, ts);
    assert(has_posting(add_tokens(m, key, ts), qs[i], key));
    lemma_matches_nonempty(add_tokens(m, key, ts), qs, i, key);
}

proof fn lemma_matches_nonempty(m: Map<Seq<char>, Map<Seq<char>, nat>>, qs: Seq<Seq<char>>, i: int, d: Seq<char>)
    requires
        0 <= i < qs.len(),
        has_posting(m, qs[i], d),
    ensures
        query_matches(m, qs, d).len() > 0,
    decreases qs.len(),
{
    if i < qs.len() - 1 {
        assert(qs.drop_last()[i] == qs[i]);
        lemma_matches_nonempty(m, qs.drop_last(), i, d);
    }
}

/// A removed document is a candidate for no query.
pub proof fn lemma_removed_doc_unmatched(m: Map<Seq<char>, Map<Seq<char>, nat>>, key: Seq<char>, qs: Seq<Seq<char>>)
    ensures
        query_matches(without_doc(m, key), qs, key).len() == 0,
    decreases qs.len(),
{
    if qs.len() > 0 {
        lemma_removed_doc_unmatched(m, key, qs.drop_last());
    }
}

/// Removing a document undoes indexing it, when the index had no postings
/// for it before.
pub proof fn lemma_remove_undoes_index(m: Map<Seq<char>, Map<Seq<char>, nat>>, key: Seq<char>, ts: Seq<Seq<char>>)
    requires
        valid_index(m),
        forall|t: Seq<char>| #[trigger] m.contains_key(t) ==> !m[t].contains_key(key),
    ensures
        without_doc(add_tokens(m, key, ts), key) == m,
{
    let a = add_tokens(m, key, ts);
    let w = without_doc(a, key);
    lemma_add_tokens_shape(m, key, ts);
    assert forall|t: Seq<char>| #[trigger] w.contains_key(t) <==> m.contains_key(t) by {
        if m.contains_key(t) {
            let d = choose|d: Seq<char>| m[t].contains_key(d);
            assert(d != key);
            assert(a[t].contains_key(d));
            assert(has_other_doc(a[t], key));
        }
        if w.contains_key(t) && !m.contains_key(t) {
            let d = choose|d: Seq<char>| d != key && #[trigger] a[t].contains_key(d);
        }
    }
    assert forall|t: Seq<char>| #[trigger] m.contains_key(t) implies w[t] == m[t] by {
        assert(w.contains_key(t));
        assert(w[t] =~= m[t]);
    }
    assert(w =~= m);
}

} // verus!

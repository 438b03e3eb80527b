use vstd::prelude::*;

use crate::blob::{copy_opt_string, opt_view, BlobMetadata};
use crate::fulltext::{lowercase, to_lower};
use crate::keyed::{keyed_map, unique_keys};
use crate::ring::string_views;
use crate::telemetry::{contains_seq, str_contains};
use crate::vfs::str_pairs;

verus! {

/// A document with its facet values (by facet name), its text and its
/// metadata. Numeric facets are kept by the caller.
pub struct FacetedDocument {
    pub key: String,
    pub facets: Vec<(String, String)>,
    pub content: Option<String>,
    pub metadata: Option<BlobMetadata>,
}

/// A facet value and the number of selected documents that have it.
#[derive(Clone, Debug)]
pub struct FacetValue {
    pub value: String,
    pub count: usize,
}

/// A facet and its values among the selected documents.
#[derive(Clone, Debug)]
pub struct Facet {
    pub name: String,
    pub values: Vec<FacetValue>,
}

/// A faceted search: an optional text to look for, the accepted values of
/// some facets, and a window.
pub struct FacetedQuery {
    pub text_query: Option<String>,
    pub facets: Vec<(String, Vec<String>)>,
    pub limit: usize,
    pub offset: usize,
}

impl FacetedQuery {
    /// No text, no facet selection, the first twenty documents.
    pub fn default() -> (q: Self)
        ensures
            q.text_query is None,
            q.facets@.len() == 0,
            q.limit == 20,
            q.offset == 0,
    {
        FacetedQuery { text_query: None, facets: Vec::new(), limit: 20, offset: 0 }
    }
}

/// The documents of a faceted search, the facet counts, and the number of
/// documents selected.
pub struct FacetedSearchResult {
    pub documents: Vec<FacetedDocument>,
    pub facets: Vec<Facet>,
    pub total: usize,
}

/// A (facet name, value, document key) entry of the facet index.
pub open spec fn triple_view(t: (String, String, String)) -> (Seq<char>, Seq<char>, Seq<char>) {
    (t.0@, t.1@, t.2@)
}

pub open spec fn triple_views(ts: Seq<(String, String, String)>) -> Seq<(Seq<char>, Seq<char>, Seq<char>)> {
    ts.map_values(|t: (String, String, String)| triple_view(t))
}

/// The keys of the documents.
pub open spec fn doc_keys(ds: Seq<FacetedDocument>) -> Seq<Seq<char>> {
    ds.map_values(|d: FacetedDocument| d.key@)
}

/// The facet values of a document by facet name.
pub open spec fn doc_facets(d: FacetedDocument) -> Map<Seq<char>, Seq<char>> {
    keyed_map(str_pairs(d.facets@))
}

/// No element occurs twice.
pub open spec fn no_dups<A>(s: Seq<A>) -> bool {
    forall|i: int, j: int| 0 <= i < j < s.len() ==> s[i] != s[j]
}

/// Some index entry has facet name `name`.
pub open spec fn name_indexed(ts: Seq<(Seq<char>, Seq<char>, Seq<char>)>, name: Seq<char>) -> bool {
    exists|i: int| 0 <= i < ts.len() && (#[trigger] ts[i]).0 == name
}

/// A document passes the text condition: there is none, or its content,
/// case folded, contains the case-folded text.
pub open spec fn text_ok(q: &FacetedQuery, d: FacetedDocument) -> bool {
    match q.text_query {
        None => true,
        Some(t) => match d.content {
            Some(c) => contains_seq(lowercase(c@), lowercase(t@)),
            None => false,
        },
    }
}

/// A document passes the facet selections: for every selected facet that
/// the index knows, the document has one of the accepted values.
pub open spec fn facets_ok(q: &FacetedQuery, ts: Seq<(Seq<char>, Seq<char>, Seq<char>)>, d: FacetedDocument) -> bool {
    forall|i: int| 0 <= i < q.facets@.len() && #[trigger] name_indexed(ts, q.facets@[i].0@) ==> {
        &&& doc_facets(d).contains_key(q.facets@[i].0@)
        &&& string_views(q.facets@[i].1@).contains(doc_facets(d)[q.facets@[i].0@])
    }
}

/// A document passes the range filters: for every filter that applies (the
/// caller gives, per filter, the keys whose value lies in the range, or
/// nothing when no document has that numeric facet), its key is among
/// those keys.
pub open spec fn ranges_ok(ranges: Seq<Option<Vec<String>>>, d: FacetedDocument) -> bool {
    forall|i: int| 0 <= i < ranges.len() && (#[trigger] ranges[i]) is Some ==> string_views(ranges[i]->0@).contains(d.key@)
}

/// A document is selected by the query.
pub open spec fn selected(q: &FacetedQuery, ranges: Seq<Option<Vec<String>>>, ts: Seq<(Seq<char>, Seq<char>, Seq<char>)>, d: FacetedDocument) -> bool {
    text_ok(q, d) && facets_ok(q, ts, d) && ranges_ok(ranges, d)
}

/// The selected documents, in index order.
pub open spec fn selection(q: &FacetedQuery, ranges: Seq<Option<Vec<String>>>, ts: Seq<(Seq<char>, Seq<char>, Seq<char>)>, ds: Seq<FacetedDocument>) -> Seq<FacetedDocument>
    decreases ds.len(),
{
    if ds.len() == 0 {
        seq![]
    } else {
        let r = selection(q, ranges, ts, ds.drop_last());
        if selected(q, ranges, ts, ds.last()) { r.push(ds.last()) } else { r }
    }
}

/// The number of index entries for facet `name` with value `v` whose
/// document is among `keys`.
pub open spec fn value_count(ts: Seq<(Seq<char>, Seq<char>, Seq<char>)>, name: Seq<char>, v: Seq<char>, keys: Seq<Seq<char>>) -> nat
    decreases ts.len(),
{
    if ts.len() == 0 {
        0
    } else {
        let t = ts.last();
        value_count(ts.drop_last(), name, v, keys) + if t.0 == name && t.1 == v && keys.contains(t.2) { 1nat } else { 0nat }
    }
}

/// Two documents have the same content.
pub open spec fn same_doc(a: FacetedDocument, b: FacetedDocument) -> bool {
    &&& a.key@ == b.key@
    &&& str_pairs(a.facets@) == str_pairs(b.facets@)
    &&& opt_view(a.content) == opt_view(b.content)
    &&& match (a.metadata, b.metadata) {
        (Some(x), Some(y)) => x.key@ == y.key@ && x.size == y.size && x.created_at == y.created_at
            && x.modified_at == y.modified_at && x.checksum == y.checksum && opt_view(x.prefix) == opt_view(y.prefix),
        (None, None) => true,
        _ => false,
    }
}

/// A faceted search index: the documents by key and an index of
/// (facet name, value, document key) entries.
pub struct FacetedSearchIndex {
    documents: Vec<FacetedDocument>,
    facet_index: Vec<(String, String, String)>,
}

impl FacetedSearchIndex {
    /// The documents, in the order they were first added.
    pub closed spec fn docs(&self) -> Seq<FacetedDocument> {
        self.documents@
    }

    /// The index entries, each once, in the order they were added.
    pub closed spec fn entries(&self) -> Seq<(Seq<char>, Seq<char>, Seq<char>)> {
        triple_views(self.facet_index@)
    }

    /// The representation invariant.
    pub closed spec fn wf(&self) -> bool {
        &&& no_dups(doc_keys(self.documents@))
        &&& no_dups(triple_views(self.facet_index@))
        &&& forall|i: int| 0 <= i < self.documents@.len() ==> #[trigger] unique_keys(str_pairs(self.documents@[i].facets@))
    }

    /// An empty index.
    pub fn new() -> (r: Self)
        ensures
            r.wf(),
            r.docs().len() == 0,
            r.entries().len() == 0,
    {
        let r = FacetedSearchIndex { documents: Vec::new(), facet_index: Vec::new() };
        assert(doc_keys(r.documents@) =~= Seq::<Seq<char>>::empty());
        assert(triple_views(r.facet_index@) =~= Seq::<(Seq<char>, Seq<char>, Seq<char>)>::empty());
        r
    }
}

/// The position of the document with key `k`, if any.
pub open spec fn doc_index(ds: Seq<FacetedDocument>, k: Seq<char>) -> Option<int>
    decreases ds.len(),
{
    if ds.len() == 0 {
        None
    } else if ds.last().key@ == k {
        Some(ds.len() - 1)
    } else {
        doc_index(ds.drop_last(), k)
    }
}

/// The documents after `d` is added: it replaces the document with its
/// key, or comes last.
pub open spec fn put_doc(ds: Seq<FacetedDocument>, d: FacetedDocument) -> Seq<FacetedDocument> {
    match doc_index(ds, d.key@) {
        Some(i) => ds.update(i, d),
        None => ds.push(d),
    }
}

/// The index entries after the facets `pairs` of document `key` are
/// entered, each that is new at the end.
pub open spec fn add_entries(
    ts: Seq<(Seq<char>, Seq<char>, Seq<char>)>,
    key: Seq<char>,
    pairs: Seq<(Seq<char>, Seq<char>)>,
) -> Seq<(Seq<char>, Seq<char>, Seq<char>)>
    decreases pairs.len(),
{
    if pairs.len() == 0 {
        ts
    } else {
        let r = add_entries(ts, key, pairs.drop_last());
        let e = (pairs.last().0, pairs.last().1, key);
        if r.contains(e) { r } else { r.push(e) }
    }
}

proof fn lemma_doc_index(ds: Seq<FacetedDocument>, k: Seq<char>)
    ensures
        match doc_index(ds, k) {
            Some(i) => 0 <= i < ds.len() && ds[i].key@ == k,
            None => forall|j: int| 0 <= j < ds.len() ==> ds[j].key@ != k,
        },
    decreases ds.len(),
{
    if ds.len() > 0 {
        lemma_doc_index(ds.drop_last(), k);
        assert forall|j: int| 0 <= j < ds.len() - 1 implies ds.drop_last()[j] == ds[j] by {}
    }
}

proof fn lemma_doc_index_unique(ds: Seq<FacetedDocument>, k: Seq<char>, i: int)
    requires
        no_dups(doc_keys(ds)),
        0 <= i < ds.len(),
        ds[i].key@ == k,
    ensures
        doc_index(ds, k) == Some(i),
{
    lemma_doc_index(ds, k);
    if let Some(j) = doc_index(ds, k) {
        if j != i {
            assert(doc_keys(ds)[i] == doc_keys(ds)[j]);
        }
    }
}

impl FacetedSearchIndex {
    /// Adds a document (replacing one with its key) and enters its facet
    /// values into the index. Entries of a replaced document stay.
    pub fn add_document(&mut self, doc: FacetedDocument)
        requires
            old(self).wf(),
            unique_keys(str_pairs(doc.facets@)),
        ensures
            final(self).wf(),
            final(self).docs() == put_doc(old(self).docs(), doc),
            final(self).entries() == add_entries(old(self).entries(), doc.key@, str_pairs(doc.facets@)),
    {
        let ghost ts0 = triple_views(self.facet_index@);
        let ghost ps = str_pairs(doc.facets@);
        let mut j: usize = 0;
        assert(ps.take(0) =~= Seq::<(Seq<char>, Seq<char>)>::empty());
        while j < doc.facets.len()
            invariant
                j <= doc.facets@.len(),
                ps == str_pairs(doc.facets@),
                triple_views(self.facet_index@) == add_entries(ts0, doc.key@, ps.take(j as int)),
                no_dups(triple_views(self.facet_index@)),
                self.documents@ == old(self).documents@,
                old(self).wf(),
            decreases doc.facets.len() - j,
        {
            assert(ps.take(j + 1).drop_last() =~= ps.take(j as int));
            assert(ps.take(j + 1).last() == ps[j as int]);
            let n = &doc.facets[j].0;
            let v = &doc.facets[j].1;
            let ghost e = (n@, v@, doc.key@);
            let ghost fi = self.facet_index@;
            let mut found = false;
            let mut k: usize = 0;
            while k < self.facet_index.len()
                invariant
                    k <= self.facet_index@.len(),
                    self.facet_index@ == fi,
                    e == (n@, v@, doc.key@),
                    !found ==> forall|a: int| 0 <= a < k ==> triple_views(self.facet_index@)[a] != e,
                    found ==> triple_views(self.facet_index@).contains(e),
                decreases self.facet_index.len() - k,
            {
                let t = &self.facet_index[k];
                if !found && t.0 == *n && t.1 == *v && t.2 == doc.key {
                    assert(triple_views(self.facet_index@)[k as int] == triple_view(*t));
                    found = true;
                }
                k += 1;
            }
            if !found {
                let ghost before = self.facet_index@;
                self.facet_index.push((n.clone(), v.clone(), doc.key.clone()));
                proof {
                    assert(triple_views(self.facet_index@) =~= triple_views(before).push(e));
                    assert forall|a: int, b: int| 0 <= a < b < triple_views(self.facet_index@).len() implies
                        triple_views(self.facet_index@)[a] != triple_views(self.facet_index@)[b] by {
                        if b < before.len() {
                            assert(triple_views(before)[a] != triple_views(before)[b]);
                        }
                    }
                }
            }
            j += 1;
        }
        assert(ps.take(doc.facets@.len() as int) =~= ps);
        self.insert_document(doc);
    }

    /// Adds a document (replacing one with its key) without entering its
    /// facet values into the index.
    pub fn insert_document(&mut self, doc: FacetedDocument)
        requires
            old(self).wf(),
            unique_keys(str_pairs(doc.facets@)),
        ensures
            final(self).wf(),
            final(self).docs() == put_doc(old(self).docs(), doc),
            final(self).entries() == old(self).entries(),
    {
        let ghost ds0 = self.documents@;
        let mut i: usize = 0;
        let mut at: Option<usize> = None;
        while i < self.documents.len()
            invariant
                i <= self.documents@.len(),
                self.documents@ == ds0,
                no_dups(doc_keys(ds0)),
                match at {
                    Some(x) => x < ds0.len() && ds0[x as int].key@ == doc.key@,
                    None => forall|a: int| 0 <= a < i ==> ds0[a].key@ != doc.key@,
                },
            decreases self.documents.len() - i,
        {
            if at.is_none() && self.documents[i].key == doc.key {
                at = Some(i);
            }
            i += 1;
        }
        proof {
            lemma_doc_index(ds0, doc.key@);
            if let Some(x) = at {
                lemma_doc_index_unique(ds0, doc.key@, x as int);
            }
        }
        let ghost dv = doc;
        match at {
            Some(x) => {
                self.documents.set(x, doc);
                proof {
                    assert(doc_keys(self.documents@) =~= doc_keys(ds0).update(x as int, dv.key@));
                    assert forall|a: int, b: int| 0 <= a < b < doc_keys(self.documents@).len() implies
                        doc_keys(self.documents@)[a] != doc_keys(self.documents@)[b] by {
                        assert(doc_keys(ds0)[a] != doc_keys(ds0)[b]);
                    }
                    assert forall|a: int| 0 <= a < self.documents@.len() implies #[trigger] unique_keys(str_pairs(self.documents@[a].facets@)) by {
                        if a != x {
                            assert(self.documents@[a] == ds0[a]);
                        }
                    }
                }
            },
            None => {
                self.documents.push(doc);
                proof {
                    assert(doc_keys(self.documents@) =~= doc_keys(ds0).push(dv.key@));
                    assert forall|a: int, b: int| 0 <= a < b < doc_keys(self.documents@).len() implies
                        doc_keys(self.documents@)[a] != doc_keys(self.documents@)[b] by {
                        if b < ds0.len() {
                            assert(doc_keys(ds0)[a] != doc_keys(ds0)[b]);
                        } else {
                            assert(doc_keys(ds0)[a] == ds0[a].key@);
                        }
                    }
                    assert forall|a: int| 0 <= a < self.documents@.len() implies #[trigger] unique_keys(str_pairs(self.documents@[a].facets@)) by {
                        if a < ds0.len() {
                            assert(self.documents@[a] == ds0[a]);
                        }
                    }
                }
            },
        }
    }
}


/// Copies a list of string pairs.
pub fn copy_pairs(v: &Vec<(String, String)>) -> (r: Vec<(String, String)>)
    ensures
        str_pairs(r@) == str_pairs(v@),
{
    let mut r: Vec<(String, String)> = Vec::new();
    let mut i: usize = 0;
    while i < v.len()
        invariant
            i <= v@.len(),
            r@.len() == i,
            forall|a: int| 0 <= a < i ==> (#[trigger] r@[a]).0@ == v@[a].0@ && r@[a].1@ == v@[a].1@,
        decreases v.len() - i,
    {
        r.push((v[i].0.clone(), v[i].1.clone()));
        i += 1;
    }
    assert(str_pairs(r@) =~= str_pairs(v@));
    r
}

/// Copies a document.
pub fn copy_document(d: &FacetedDocument) -> (r: FacetedDocument)
    ensures
        same_doc(r, *d),
{
    let metadata = match &d.metadata {
        Some(m) => Some(m.duplicate()),
        None => None,
    };
    FacetedDocument {
        key: d.key.clone(),
        facets: copy_pairs(&d.facets),
        content: copy_opt_string(&d.content),
        metadata,
    }
}

/// Whether `s` is one of the strings of `v`.
pub fn string_in(v: &Vec<String>, s: &String) -> (b: bool)
    ensures
        b == string_views(v@).contains(s@),
{
    let mut i: usize = 0;
    while i < v.len()
        invariant
            i <= v@.len(),
            forall|a: int| 0 <= a < i ==> v@[a]@ != s@,
        decreases v.len() - i,
    {
        if v[i] == *s {
            assert(string_views(v@)[i as int] == s@);
            return true;
        }
        i += 1;
    }
    proof {
        if string_views(v@).contains(s@) {
            let a = choose|a: int| 0 <= a < string_views(v@).len() && string_views(v@)[a] == s@;
            assert(v@[a]@ == s@);
        }
    }
    false
}

/// The value a document has for facet `name`, if any.
pub fn facet_value_of<'a>(d: &'a FacetedDocument, name: &String) -> (r: Option<&'a String>)
    requires
        unique_keys(str_pairs(d.facets@)),
    ensures
        match r {
            Some(v) => doc_facets(*d).contains_key(name@) && doc_facets(*d)[name@] == v@,
            None => !doc_facets(*d).contains_key(name@),
        },
{
    let ghost ps = str_pairs(d.facets@);
    let mut i: usize = 0;
    while i < d.facets.len()
        invariant
            i <= d.facets@.len(),
            ps == str_pairs(d.facets@),
            unique_keys(ps),
            forall|a: int| 0 <= a < i ==> ps[a].0 != name@,
        decreases d.facets.len() - i,
    {
        if d.facets[i].0 == *name {
            proof {
                crate::keyed::lemma_keyed_get(ps, i as int);
            }
            return Some(&d.facets[i].1);
        }
        i += 1;
    }
    proof {
        crate::keyed::lemma_keyed_dom(ps, name@);
    }
    None
}

/// Whether a document passes the text condition of the query.
pub fn doc_text_ok(q: &FacetedQuery, d: &FacetedDocument) -> (b: bool)
    ensures
        b == text_ok(q, *d),
{
    match &q.text_query {
        None => true,
        Some(t) => match &d.content {
            Some(c) => {
                let lc = to_lower(c);
                let lt = to_lower(t);
                str_contains(&lc, &lt)
            },
            None => false,
        },
    }
}

/// Whether a document passes the range filters.
pub fn doc_ranges_ok(ranges: &Vec<Option<Vec<String>>>, d: &FacetedDocument) -> (b: bool)
    ensures
        b == ranges_ok(ranges@, *d),
{
    let mut i: usize = 0;
    while i < ranges.len()
        invariant
            i <= ranges@.len(),
            forall|a: int| 0 <= a < i && (#[trigger] ranges@[a]) is Some ==> string_views(ranges@[a]->0@).contains(d.key@),
        decreases ranges.len() - i,
    {
        match &ranges[i] {
            Some(keys) => {
                if !string_in(keys, &d.key) {
                    return false;
                }
            },
            None => {},
        }
        i += 1;
    }
    true
}

impl FacetedSearchIndex {
    /// Whether some index entry has facet name `name`.
    pub fn has_facet(&self, name: &String) -> (b: bool)
        ensures
            b == name_indexed(self.entries(), name@),
    {
        let ghost ts = self.entries();
        let mut i: usize = 0;
        while i < self.facet_index.len()
            invariant
                i <= self.facet_index@.len(),
                ts == triple_views(self.facet_index@),
                forall|a: int| 0 <= a < i ==> ts[a].0 != name@,
            decreases self.facet_index.len() - i,
        {
            if self.facet_index[i].0 == *name {
                assert(ts[i as int].0 == name@);
                return true;
            }
            i += 1;
        }
        false
    }

    /// Whether a document passes the facet selections of the query.
    pub fn doc_facets_ok(&self, q: &FacetedQuery, d: &FacetedDocument) -> (b: bool)
        requires
            unique_keys(str_pairs(d.facets@)),
        ensures
            b == facets_ok(q, self.entries(), *d),
    {
        let mut i: usize = 0;
        while i < q.facets.len()
            invariant
                i <= q.facets@.len(),
                unique_keys(str_pairs(d.facets@)),
                forall|a: int| 0 <= a < i && #[trigger] name_indexed(self.entries(), q.facets@[a].0@) ==> {
                    &&& doc_facets(*d).contains_key(q.facets@[a].0@)
                    &&& string_views(q.facets@[a].1@).contains(doc_facets(*d)[q.facets@[a].0@])
                },
            decreases q.facets.len() - i,
        {
            let name = &q.facets[i].0;
            if self.has_facet(name) {
                match facet_value_of(d, name) {
                    Some(v) => {
                        if !string_in(&q.facets[i].1, v) {
                            return false;
                        }
                    },
                    None => {
                        return false;
                    },
                }
            }
            i += 1;
        }
        true
    }
}


/// The facet names of the index entries, each once, in order of first
/// appearance.
pub open spec fn facet_names(ts: Seq<(Seq<char>, Seq<char>, Seq<char>)>) -> Seq<Seq<char>>
    decreases ts.len(),
{
    if ts.len() == 0 {
        seq![]
    } else {
        let r = facet_names(ts.drop_last());
        if r.contains(ts.last().0) { r } else { r.push(ts.last().0) }
    }
}

/// The values of facet `name` in the index entries, each once, in order of
/// first appearance.
pub open spec fn name_values(ts: Seq<(Seq<char>, Seq<char>, Seq<char>)>, name: Seq<char>) -> Seq<Seq<char>>
    decreases ts.len(),
{
    if ts.len() == 0 {
        seq![]
    } else {
        let r = name_values(ts.drop_last(), name);
        if ts.last().0 == name && !r.contains(ts.last().1) { r.push(ts.last().1) } else { r }
    }
}

/// The values of one facet among the documents with keys `keys`: each
/// value with at least one such document once, with its number of such
/// documents, the most frequent first.
pub open spec fn values_ok(vals: Seq<FacetValue>, ts: Seq<(Seq<char>, Seq<char>, Seq<char>)>, name: Seq<char>, keys: Seq<Seq<char>>) -> bool {
    &&& forall|i: int| 0 <= i < vals.len() ==> (#[trigger] vals[i]).count == value_count(ts, name, vals[i].value@, keys) && vals[i].count > 0
    &&& forall|i: int, j: int| 0 <= i < j < vals.len() ==> (#[trigger] vals[i]).value@ != (#[trigger] vals[j]).value@
    &&& forall|v: Seq<char>| #[trigger] value_count(ts, name, v, keys) > 0 ==> exists|i: int| 0 <= i < vals.len() && (#[trigger] vals[i]).value@ == v
    &&& forall|i: int, j: int| 0 <= i < j < vals.len() ==> (#[trigger] vals[i]).count >= (#[trigger] vals[j]).count
}

/// The number of results in the window at `offset` of at most `limit`.
pub open spec fn window_len(total: int, offset: int, limit: int) -> int {
    if offset >= total { 0 } else if limit <= total - offset { limit } else { total - offset }
}

proof fn lemma_facet_names(ts: Seq<(Seq<char>, Seq<char>, Seq<char>)>)
    ensures
        no_dups(facet_names(ts)),
    decreases ts.len(),
{
    if ts.len() > 0 {
        lemma_facet_names(ts.drop_last());
    }
}

proof fn lemma_name_values(ts: Seq<(Seq<char>, Seq<char>, Seq<char>)>, name: Seq<char>, v: Seq<char>, keys: Seq<Seq<char>>)
    ensures
        no_dups(name_values(ts, name)),
        value_count(ts, name, v, keys) > 0 ==> name_values(ts, name).contains(v),
    decreases ts.len(),
{
    if ts.len() > 0 {
        lemma_name_values(ts.drop_last(), name, v, keys);
        let r = name_values(ts.drop_last(), name);
        if r.contains(v) {
            let i = choose|i: int| 0 <= i < r.len() && r[i] == v;
            if ts.last().0 == name && !r.contains(ts.last().1) {
                assert(r.push(ts.last().1)[i] == v);
            }
        } else if ts.last().0 == name && ts.last().1 == v {
            assert(r.push(v)[r.len() as int] == v);
        }
    }
}

impl FacetedSearchIndex {
    /// The positions of the selected documents, in index order.
    pub fn select(&self, q: &FacetedQuery, ranges: &Vec<Option<Vec<String>>>) -> (r: Vec<usize>)
        requires
            self.wf(),
        ensures
            r@.len() == selection(q, ranges@, self.entries(), self.docs()).len(),
            forall|a: int| 0 <= a < r@.len() ==> (#[trigger] r@[a]) < self.docs().len()
                && self.docs()[r@[a] as int] == selection(q, ranges@, self.entries(), self.docs())[a],
    {
        let ghost ds = self.docs();
        let ghost ts = self.entries();
        let mut r: Vec<usize> = Vec::new();
        let mut i: usize = 0;
        assert(ds.take(0) =~= Seq::<FacetedDocument>::empty());
        while i < self.documents.len()
            invariant
                self.wf(),
                ds == self.docs(),
                ts == self.entries(),
                i <= ds.len(),
                r@.len() == selection(q, ranges@, ts, ds.take(i as int)).len(),
                forall|a: int| 0 <= a < r@.len() ==> (#[trigger] r@[a]) < i
                    && ds[r@[a] as int] == selection(q, ranges@, ts, ds.take(i as int))[a],
            decreases self.documents.len() - i,
        {
            assert(ds.take(i + 1).drop_last() =~= ds.take(i as int));
            assert(ds.take(i + 1).last() == ds[i as int]);
            let d = &self.documents[i];
            assert(unique_keys(str_pairs(ds[i as int].facets@)));
            let ok = doc_text_ok(q, d) && self.doc_facets_ok(q, d) && doc_ranges_ok(ranges, d);
            if ok {
                r.push(i);
            }
            i += 1;
        }
        assert(ds.take(ds.len() as int) =~= ds);
        r
    }

    /// How many entries of facet `name` with value `v` have their document
    /// among `keys`.
    pub fn count_value(&self, name: &String, v: &String, keys: &Vec<String>) -> (n: usize)
        ensures
            n == value_count(self.entries(), name@, v@, string_views(keys@)),
    {
        let ghost ts = self.entries();
        let mut n: usize = 0;
        let mut k: usize = 0;
        assert(ts.take(0) =~= Seq::<(Seq<char>, Seq<char>, Seq<char>)>::empty());
        while k < self.facet_index.len()
            invariant
                ts == self.entries(),
                k <= ts.len(),
                ts.len() == self.facet_index@.len(),
                n <= k,
                n == value_count(ts.take(k as int), name@, v@, string_views(keys@)),
            decreases self.facet_index.len() - k,
        {
            assert(ts.take(k + 1).drop_last() =~= ts.take(k as int));
            assert(ts.take(k + 1).last() == ts[k as int]);
            let t = &self.facet_index[k];
            if t.0 == *name && t.1 == *v && string_in(keys, &t.2) {
                n += 1;
            }
            k += 1;
        }
        assert(ts.take(ts.len() as int) =~= ts);
        n
    }

    /// The facet names of the index, each once, in order of first appearance.
    pub fn names(&self) -> (r: Vec<String>)
        ensures
            string_views(r@) == facet_names(self.entries()),
    {
        let ghost ts = self.entries();
        let mut r: Vec<String> = Vec::new();
        let mut k: usize = 0;
        assert(ts.take(0) =~= Seq::<(Seq<char>, Seq<char>, Seq<char>)>::empty());
        assert(string_views(r@) =~= Seq::<Seq<char>>::empty());
        while k < self.facet_index.len()
            invariant
                ts == self.entries(),
                k <= ts.len(),
                ts.len() == self.facet_index@.len(),
                string_views(r@) == facet_names(ts.take(k as int)),
            decreases self.facet_index.len() - k,
        {
            assert(ts.take(k + 1).drop_last() =~= ts.take(k as int));
            assert(ts.take(k + 1).last() == ts[k as int]);
            let t = &self.facet_index[k];
            if !string_in(&r, &t.0) {
                let ghost before = r@;
                r.push(t.0.clone());
                assert(string_views(r@) =~= string_views(before).push(t.0@));
            }
            k += 1;
        }
        assert(ts.take(ts.len() as int) =~= ts);
        r
    }

    /// The values of facet `name`, each once, in order of first appearance.
    pub fn values_of(&self, name: &String) -> (r: Vec<String>)
        ensures
            string_views(r@) == name_values(self.entries(), name@),
    {
        let ghost ts = self.entries();
        let mut r: Vec<String> = Vec::new();
        let mut k: usize = 0;
        assert(ts.take(0) =~= Seq::<(Seq<char>, Seq<char>, Seq<char>)>::empty());
        assert(string_views(r@) =~= Seq::<Seq<char>>::empty());
        while k < self.facet_index.len()
            invariant
                ts == self.entries(),
                k <= ts.len(),
                ts.len() == self.facet_index@.len(),
                string_views(r@) == name_values(ts.take(k as int), name@),
            decreases self.facet_index.len() - k,
        {
            assert(ts.take(k + 1).drop_last() =~= ts.take(k as int));
            assert(ts.take(k + 1).last() == ts[k as int]);
            let t = &self.facet_index[k];
            if t.0 == *name && !string_in(&r, &t.1) {
                let ghost before = r@;
                r.push(t.1.clone());
                assert(string_views(r@) =~= string_views(before).push(t.1@));
            }
            k += 1;
        }
        assert(ts.take(ts.len() as int) =~= ts);
        r
    }
}

/// The counts never increase along the list.
pub open spec fn by_count(vals: Seq<FacetValue>) -> bool {
    forall|i: int, j: int| 0 <= i < j < vals.len() ==> (#[trigger] vals[i]).count >= (#[trigger] vals[j]).count
}

/// `new` is `old` with `fv` at position `p`.
pub open spec fn inserted_at(old: Seq<FacetValue>, new: Seq<FacetValue>, p: int, fv: FacetValue) -> bool {
    &&& 0 <= p <= old.len()
    &&& new.len() == old.len() + 1
    &&& new[p] == fv
    &&& forall|i: int| 0 <= i < p ==> #[trigger] new[i] == old[i]
    &&& forall|i: int| p <= i < old.len() ==> new[i + 1] == #[trigger] old[i]
}

/// Inserts `fv` into a list ordered by decreasing count, after every value
/// with at least its count.
pub fn insert_by_count(vals: &mut Vec<FacetValue>, fv: FacetValue)
    requires
        by_count(old(vals)@),
    ensures
        by_count(final(vals)@),
        exists|p: int| inserted_at(old(vals)@, final(vals)@, p, fv)
            && (forall|i: int| 0 <= i < p ==> (#[trigger] old(vals)@[i]).count >= fv.count)
            && (forall|i: int| p <= i < old(vals)@.len() ==> (#[trigger] old(vals)@[i]).count < fv.count),
{
    let mut p: usize = 0;
    while p < vals.len() && vals[p].count >= fv.count
        invariant
            p <= vals@.len(),
            vals@ == old(vals)@,
            forall|i: int| 0 <= i < p ==> (#[trigger] vals@[i]).count >= fv.count,
        decreases vals.len() - p,
    {
        p += 1;
    }
    proof {
        if p < vals@.len() {
            assert forall|i: int| p <= i < old(vals)@.len() implies (#[trigger] old(vals)@[i]).count < fv.count by {
                assert(old(vals)@[p as int].count >= old(vals)@[i].count);
            }
        }
    }
    let ghost q = p as int;
    let ghost o = vals@;
    vals.insert(p, fv);
    proof {
        o.insert_ensures(q, fv);
        assert forall|i: int| q <= i < o.len() implies vals@[i + 1] == #[trigger] o[i] by {}
        assert(inserted_at(o, vals@, q, fv));
        assert forall|i: int, j: int| 0 <= i < j < vals@.len() implies (#[trigger] vals@[i]).count >= (#[trigger] vals@[j]).count by {
            if j < q {
                assert(o[i].count >= o[j].count);
            } else if j == q {
                assert(vals@[i] == o[i]);
            } else if i < q {
                assert(vals@[j] == o[j - 1]);
                assert(o[i].count >= fv.count);
            } else if i == q {
                assert(vals@[j] == o[j - 1]);
            } else {
                assert(vals@[j] == o[j - 1]);
                assert(vals@[i] == o[i - 1]);
                assert(o[i - 1].count >= o[j - 1].count);
            }
        }
    }
}


/// Each gathered value carries its count, which is positive.
#[verifier::opaque]
pub open spec fn counts_right(out: Seq<FacetValue>, ts: Seq<(Seq<char>, Seq<char>, Seq<char>)>, name: Seq<char>, ks: Seq<Seq<char>>) -> bool {
    forall|i: int| 0 <= i < out.len() ==> (#[trigger] out[i]).count == value_count(ts, name, out[i].value@, ks) && out[i].count > 0
}

/// Each gathered value is one of the first `j` candidates.
#[verifier::opaque]
pub open spec fn from_first(out: Seq<FacetValue>, nv: Seq<Seq<char>>, j: int) -> bool {
    forall|i: int| 0 <= i < out.len() ==> exists|a: int| 0 <= a < j && (#[trigger] out[i]).value@ == nv[a]
}

/// Each of the first `j` candidates with a positive count is gathered.
#[verifier::opaque]
pub open spec fn covers_first(out: Seq<FacetValue>, ts: Seq<(Seq<char>, Seq<char>, Seq<char>)>, name: Seq<char>, ks: Seq<Seq<char>>, nv: Seq<Seq<char>>, j: int) -> bool {
    forall|a: int| 0 <= a < j && value_count(ts, name, #[trigger] nv[a], ks) > 0 ==> exists|i: int| 0 <= i < out.len() && (#[trigger] out[i]).value@ == nv[a]
}

/// No value is gathered twice.
#[verifier::opaque]
pub open spec fn distinct_values(out: Seq<FacetValue>) -> bool {
    forall|i: int, k: int| 0 <= i < k < out.len() ==> (#[trigger] out[i]).value@ != (#[trigger] out[k]).value@
}

/// What the facet values gathered from the first `j` candidate values
/// `nv` satisfy.
pub open spec fn gathered(out: Seq<FacetValue>, ts: Seq<(Seq<char>, Seq<char>, Seq<char>)>, name: Seq<char>, ks: Seq<Seq<char>>, nv: Seq<Seq<char>>, j: int) -> bool {
    &&& counts_right(out, ts, name, ks)
    &&& from_first(out, nv, j)
    &&& covers_first(out, ts, name, ks, nv, j)
    &&& distinct_values(out)
}

proof fn lemma_gathered_skip(out: Seq<FacetValue>, ts: Seq<(Seq<char>, Seq<char>, Seq<char>)>, name: Seq<char>, ks: Seq<Seq<char>>, nv: Seq<Seq<char>>, j: int)
    requires
        gathered(out, ts, name, ks, nv, j),
        0 <= j < nv.len(),
        value_count(ts, name, nv[j], ks) == 0,
    ensures
        gathered(out, ts, name, ks, nv, j + 1),
{
    reveal(from_first);
    reveal(covers_first);
    assert forall|i: int| 0 <= i < out.len() implies exists|a: int| 0 <= a < j + 1 && (#[trigger] out[i]).value@ == nv[a] by {
        let a = choose|a: int| 0 <= a < j && (#[trigger] out[i]).value@ == nv[a];
    }
}

proof fn lemma_insert_counts(o: Seq<FacetValue>, out: Seq<FacetValue>, p: int, fv: FacetValue, ts: Seq<(Seq<char>, Seq<char>, Seq<char>)>, name: Seq<char>, ks: Seq<Seq<char>>)
    requires
        counts_right(o, ts, name, ks),
        inserted_at(o, out, p, fv),
        fv.count == value_count(ts, name, fv.value@, ks),
        fv.count > 0,
    ensures
        counts_right(out, ts, name, ks),
{
    reveal(counts_right);
    assert forall|i: int| 0 <= i < out.len() implies (#[trigger] out[i]).count == value_count(ts, name, out[i].value@, ks) && out[i].count > 0 by {
        if i < p {
            assert(out[i] == o[i]);
        } else if i > p {
            assert(out[i] == o[i - 1]);
        }
    }
}

proof fn lemma_insert_from(o: Seq<FacetValue>, out: Seq<FacetValue>, p: int, fv: FacetValue, nv: Seq<Seq<char>>, j: int)
    requires
        from_first(o, nv, j),
        inserted_at(o, out, p, fv),
        0 <= j < nv.len(),
        fv.value@ == nv[j],
    ensures
        from_first(out, nv, j + 1),
{
    reveal(from_first);
    assert forall|i: int| 0 <= i < out.len() implies exists|a: int| 0 <= a < j + 1 && (#[trigger] out[i]).value@ == nv[a] by {
        if i < p {
            assert(out[i] == o[i]);
            let a = choose|a: int| 0 <= a < j && (#[trigger] o[i]).value@ == nv[a];
        } else if i > p {
            assert(out[i] == o[i - 1]);
            let a = choose|a: int| 0 <= a < j && (#[trigger] o[i - 1]).value@ == nv[a];
        } else {
            assert(out[i].value@ == nv[j]);
        }
    }
}

proof fn lemma_insert_covers(o: Seq<FacetValue>, out: Seq<FacetValue>, p: int, fv: FacetValue, ts: Seq<(Seq<char>, Seq<char>, Seq<char>)>, name: Seq<char>, ks: Seq<Seq<char>>, nv: Seq<Seq<char>>, j: int)
    requires
        covers_first(o, ts, name, ks, nv, j),
        inserted_at(o, out, p, fv),
        0 <= j < nv.len(),
        fv.value@ == nv[j],
    ensures
        covers_first(out, ts, name, ks, nv, j + 1),
{
    reveal(covers_first);
    assert forall|a: int| 0 <= a < j + 1 && value_count(ts, name, #[trigger] nv[a], ks) > 0 implies exists|i: int| 0 <= i < out.len() && (#[trigger] out[i]).value@ == nv[a] by {
        if a == j {
            assert(out[p].value@ == nv[a]);
        } else {
            let i = choose|i: int| 0 <= i < o.len() && (#[trigger] o[i]).value@ == nv[a];
            if i < p {
                assert(out[i] == o[i]);
            } else {
                assert(out[i + 1] == o[i]);
            }
        }
    }
}

proof fn lemma_insert_distinct(o: Seq<FacetValue>, out: Seq<FacetValue>, p: int, fv: FacetValue, nv: Seq<Seq<char>>, j: int)
    requires
        distinct_values(o),
        from_first(o, nv, j),
        no_dups(nv),
        inserted_at(o, out, p, fv),
        0 <= j < nv.len(),
        fv.value@ == nv[j],
    ensures
        distinct_values(out),
{
    reveal(distinct_values);
    reveal(from_first);
    assert forall|i: int, k: int| 0 <= i < k < out.len() implies (#[trigger] out[i]).value@ != (#[trigger] out[k]).value@ by {
        if i != p && k != p {
            let i0 = if i < p { i } else { i - 1 };
            let k0 = if k < p { k } else { k - 1 };
            assert(out[i] == o[i0]);
            assert(out[k] == o[k0]);
        } else if i == p {
            assert(out[k] == o[k - 1]);
            let a = choose|a: int| 0 <= a < j && (#[trigger] o[k - 1]).value@ == nv[a];
            assert(nv[a] != nv[j]);
        } else {
            assert(out[i] == o[i]);
            let a = choose|a: int| 0 <= a < j && (#[trigger] o[i]).value@ == nv[a];
            assert(nv[a] != nv[j]);
        }
    }
}

impl FacetedSearchIndex {
    /// The values of facet `name` among the documents with keys `keys`,
    /// with their counts, the most frequent first.
    pub fn facet_values(&self, name: &String, keys: &Vec<String>) -> (r: Vec<FacetValue>)
        ensures
            values_ok(r@, self.entries(), name@, string_views(keys@)),
    {
        let ghost ts = self.entries();
        let ghost ks = string_views(keys@);
        let vs = self.values_of(name);
        let ghost nv = string_views(vs@);
        proof {
            lemma_name_values(ts, name@, seq![], ks);
            reveal(counts_right);
            reveal(from_first);
            reveal(covers_first);
            reveal(distinct_values);
        }
        let mut out: Vec<FacetValue> = Vec::new();
        let mut j: usize = 0;
        while j < vs.len()
            invariant
                ts == self.entries(),
                ks == string_views(keys@),
                nv == string_views(vs@),
                nv == name_values(ts, name@),
                no_dups(nv),
                j <= vs@.len(),
                by_count(out@),
                gathered(out@, ts, name@, ks, nv, j as int),
            decreases vs.len() - j,
        {
            let c = self.count_value(name, &vs[j], keys);
            assert(nv[j as int] == vs@[j as int]@);
            if c > 0 {
                let fv = FacetValue { value: vs[j].clone(), count: c };
                let ghost o = out@;
                insert_by_count(&mut out, fv);
                proof {
                    let p = choose|p: int| inserted_at(o, out@, p, fv)
                        && (forall|i: int| 0 <= i < p ==> (#[trigger] o[i]).count >= fv.count)
                        && (forall|i: int| p <= i < o.len() ==> (#[trigger] o[i]).count < fv.count);
                    lemma_insert_counts(o, out@, p, fv, ts, name@, ks);
                    lemma_insert_from(o, out@, p, fv, nv, j as int);
                    lemma_insert_covers(o, out@, p, fv, ts, name@, ks, nv, j as int);
                    lemma_insert_distinct(o, out@, p, fv, nv, j as int);
                }
            } else {
                proof {
                    lemma_gathered_skip(out@, ts, name@, ks, nv, j as int);
                }
            }
            j += 1;
        }
        proof {
            reveal(counts_right);
            reveal(covers_first);
            reveal(distinct_values);
            assert forall|v: Seq<char>| #[trigger] value_count(ts, name@, v, ks) > 0 implies exists|i: int| 0 <= i < out@.len() && (#[trigger] out@[i]).value@ == v by {
                lemma_name_values(ts, name@, v, ks);
                let a = choose|a: int| 0 <= a < nv.len() && nv[a] == v;
                assert(value_count(ts, name@, nv[a], ks) > 0);
            }
        }
        out
    }
}


impl FacetedSearchIndex {
    /// The documents that the query selects, in index order.
    pub open spec fn selected_docs(&self, q: &FacetedQuery, ranges: Seq<Option<Vec<String>>>) -> Seq<FacetedDocument> {
        selection(q, ranges, self.entries(), self.docs())
    }

    /// Runs a faceted search. `ranges` holds, for each numeric range
    /// filter of the query, the keys of the documents whose value lies in
    /// the range, or nothing where no document has that numeric facet.
    /// The result has the number of selected documents, copies of those in
    /// the window at `query.offset` of at most `query.limit`, and, for each
    /// facet name of the index, its values among the selected documents
    /// with their counts, the most frequent first.
    pub fn search(&self, query: &FacetedQuery, ranges: &Vec<Option<Vec<String>>>) -> (r: FacetedSearchResult)
        requires
            self.wf(),
        ensures
            r.total == self.selected_docs(query, ranges@).len(),
            r.documents@.len() == window_len(self.selected_docs(query, ranges@).len() as int, query.offset as int, query.limit as int),
            forall|i: int| 0 <= i < r.documents@.len() ==> same_doc(#[trigger] r.documents@[i], self.selected_docs(query, ranges@)[query.offset + i]),
            r.facets@.len() == facet_names(self.entries()).len(),
            forall|i: int| 0 <= i < r.facets@.len() ==> (#[trigger] r.facets@[i]).name@ == facet_names(self.entries())[i]
                && values_ok(r.facets@[i].values@, self.entries(), facet_names(self.entries())[i], doc_keys(self.selected_docs(query, ranges@))),
    {
        let ghost sd = self.selected_docs(query, ranges@);
        let ghost ds = self.docs();
        let sel = self.select(query, ranges);
        let mut keys: Vec<String> = Vec::new();
        let mut a: usize = 0;
        while a < sel.len()
            invariant
                ds == self.docs(),
                ds.len() == self.documents@.len(),
                sel@.len() == sd.len(),
                forall|b: int| 0 <= b < sel@.len() ==> (#[trigger] sel@[b]) < ds.len() && ds[sel@[b] as int] == sd[b],
                a <= sel@.len(),
                keys@.len() == a,
                forall|b: int| 0 <= b < a ==> (#[trigger] keys@[b])@ == sd[b].key@,
            decreases sel.len() - a,
        {
            let d = &self.documents[sel[a]];
            keys.push(d.key.clone());
            a += 1;
        }
        assert(string_views(keys@) =~= doc_keys(sd));
        let names = self.names();
        let ghost fnames = facet_names(self.entries());
        let mut facets: Vec<Facet> = Vec::new();
        let mut n: usize = 0;
        while n < names.len()
            invariant
                string_views(names@) == fnames,
                fnames == facet_names(self.entries()),
                string_views(keys@) == doc_keys(sd),
                n <= names@.len(),
                facets@.len() == n,
                forall|i: int| 0 <= i < n ==> (#[trigger] facets@[i]).name@ == fnames[i]
                    && values_ok(facets@[i].values@, self.entries(), fnames[i], doc_keys(sd)),
            decreases names.len() - n,
        {
            assert(fnames[n as int] == names@[n as int]@);
            let values = self.facet_values(&names[n], &keys);
            facets.push(Facet { name: names[n].clone(), values });
            n += 1;
        }
        let total = sel.len();
        let mut documents: Vec<FacetedDocument> = Vec::new();
        if query.offset < total {
            let end = if query.limit <= total - query.offset { query.offset + query.limit } else { total };
            let mut i: usize = query.offset;
            while i < end
                invariant
                    ds == self.docs(),
                    ds.len() == self.documents@.len(),
                    sel@.len() == sd.len(),
                    total == sel@.len(),
                    forall|b: int| 0 <= b < sel@.len() ==> (#[trigger] sel@[b]) < ds.len() && ds[sel@[b] as int] == sd[b],
                    query.offset <= i <= end,
                    end <= total,
                    documents@.len() == i - query.offset,
                    forall|b: int| 0 <= b < documents@.len() ==> same_doc(#[trigger] documents@[b], sd[query.offset + b]),
                decreases end - i,
            {
                let d = copy_document(&self.documents[sel[i]]);
                documents.push(d);
                i += 1;
            }
        }
        FacetedSearchResult { documents, facets, total }
    }
}


/// A query with no text, no facet selection and no range filter selects
/// every document, in index order.
pub proof fn lemma_unfiltered_selects_all(
    q: &FacetedQuery,
    ranges: Seq<Option<Vec<String>>>,
    ts: Seq<(Seq<char>, Seq<char>, Seq<char>)>,
    ds: Seq<FacetedDocument>,
)
    requires
        q.text_query is None,
        q.facets@.len() == 0,
        ranges.len() == 0,
    ensures
        selection(q, ranges, ts, ds) == ds,
    decreases ds.len(),
{
    if ds.len() > 0 {
        lemma_unfiltered_selects_all(q, ranges, ts, ds.drop_last());
        assert(ds.drop_last().push(ds.last()) =~= ds);
    }
}

/// Entering a document's facets keeps every earlier entry and makes each
/// (facet name, value, key) of the document an entry.
pub proof fn lemma_add_entries_indexes(
    ts: Seq<(Seq<char>, Seq<char>, Seq<char>)>,
    key: Seq<char>,
    pairs: Seq<(Seq<char>, Seq<char>)>,
)
    ensures
        forall|i: int| 0 <= i < ts.len() ==> add_entries(ts, key, pairs).contains(#[trigger] ts[i]),
        forall|i: int| 0 <= i < pairs.len() ==> add_entries(ts, key, pairs).contains((#[trigger] pairs[i].0, pairs[i].1, key)),
    decreases pairs.len(),
{
    if pairs.len() > 0 {
        let r = add_entries(ts, key, pairs.drop_last());
        let e = (pairs.last().0, pairs.last().1, key);
        lemma_add_entries_indexes(ts, key, pairs.drop_last());
        assert forall|i: int| 0 <= i < ts.len() implies add_entries(ts, key, pairs).contains(#[trigger] ts[i]) by {
            assert(r.contains(ts[i]));
            if !r.contains(e) {
                let k = choose|k: int| 0 <= k < r.len() && r[k] == ts[i];
                assert(r.push(e)[k] == ts[i]);
            }
        }
        assert forall|i: int| 0 <= i < pairs.len() implies add_entries(ts, key, pairs).contains((#[trigger] pairs[i].0, pairs[i].1, key)) by {
            if i < pairs.len() - 1 {
                assert(pairs.drop_last()[i] == pairs[i]);
                assert(r.contains((pairs[i].0, pairs[i].1, key)));
                if !r.contains(e) {
                    let k = choose|k: int| 0 <= k < r.len() && r[k] == (pairs[i].0, pairs[i].1, key);
                    assert(r.push(e)[k] == r[k]);
                }
            } else if !r.contains(e) {
                assert(r.push(e)[r.len() as int] == e);
            }
        }
    }
}

} // verus!

use vstd::prelude::*;

use crate::docinfo::{trim_chars, trim_ws};
use crate::docsearch::string_of_chars;
use crate::fulltext::{lowercase, to_lower};
use crate::ring::string_views;
use crate::routing::lex_le;
use crate::text::{chars_of, push_str};

verus! {

/// A JSON value. Numbers keep the text they print as; object members come
/// in the order of their keys, as the parser's map keeps them.
pub enum JsonValue {
    Null,
    Bool(bool),
    Number(String),
    Str(String),
    Array(Vec<JsonValue>),
    Object(Vec<(String, JsonValue)>),
}

/// How a JSON value is turned into text for fingerprinting.
pub struct JsonFingerprintConfig {
    pub include_fields: Option<Vec<String>>,
    pub exclude_fields: Option<Vec<String>>,
    pub include_field_names: bool,
    pub normalize_values: bool,
    pub max_depth: usize,
    pub sort_keys: bool,
}

impl JsonFingerprintConfig {
    /// All fields, with their names, values normalized, five levels deep,
    /// keys sorted.
    pub fn default() -> (c: Self)
        ensures
            c.include_fields is None,
            c.exclude_fields is None,
            c.include_field_names,
            c.normalize_values,
            c.max_depth == 5,
            c.sort_keys,
    {
        JsonFingerprintConfig {
            include_fields: None,
            exclude_fields: None,
            include_field_names: true,
            normalize_values: true,
            max_depth: 5,
            sort_keys: true,
        }
    }
}

/// A field is kept: it is not excluded, and it is included when a list of
/// fields to include is given.
pub open spec fn field_kept(c: &JsonFingerprintConfig, f: Seq<char>) -> bool {
    &&& match c.exclude_fields {
        Some(ex) => !string_views(ex@).contains(f),
        None => true,
    }
    &&& match c.include_fields {
        Some(inc) => string_views(inc@).contains(f),
        None => true,
    }
}

/// The parts joined with `sep` between them.
pub open spec fn join(parts: Seq<Seq<char>>, sep: Seq<char>) -> Seq<char>
    decreases parts.len(),
{
    if parts.len() == 0 {
        seq![]
    } else if parts.len() == 1 {
        parts[0]
    } else {
        join(parts.drop_last(), sep) + sep + parts.last()
    }
}

/// The text of a JSON value at nesting depth `depth`: a marker past the
/// deepest level; `null`, `true`, `false`, a number's own text; a string,
/// lower-cased and trimmed when values are normalized; an array as its
/// items' texts in brackets; an object as the texts of its kept members,
/// each after its name and a colon when names are included, in braces.
pub open spec fn json_text(c: &JsonFingerprintConfig, v: JsonValue, depth: nat) -> Seq<char>
    decreases v, 0nat,
{
    if depth > c.max_depth {
        "[MAX_DEPTH]"@
    } else {
        match v {
            JsonValue::Null => "null"@,
            JsonValue::Bool(b) => if b { "true"@ } else { "false"@ },
            JsonValue::Number(n) => n@,
            JsonValue::Str(s) => if c.normalize_values { trim_ws(lowercase(s@)) } else { s@ },
            JsonValue::Array(a) => "["@ + join(items_text(c, a@, depth + 1), ", "@) + "]"@,
            JsonValue::Object(o) => "{"@ + join(members_text(c, o@, depth + 1), ", "@) + "}"@,
        }
    }
}

/// The texts of array items.
pub open spec fn items_text(c: &JsonFingerprintConfig, a: Seq<JsonValue>, depth: nat) -> Seq<Seq<char>>
    decreases a, 1nat,
{
    if a.len() == 0 {
        seq![]
    } else {
        items_text(c, a.drop_last(), depth).push(json_text(c, a.last(), depth))
    }
}

/// The texts of the kept object members.
pub open spec fn members_text(c: &JsonFingerprintConfig, o: Seq<(String, JsonValue)>, depth: nat) -> Seq<Seq<char>>
    decreases o, 1nat,
{
    if o.len() == 0 {
        seq![]
    } else {
        let rest = members_text(c, o.drop_last(), depth);
        let (k, v) = o.last();
        if field_kept(c, k@) {
            let t = json_text(c, v, depth);
            rest.push(if c.include_field_names { k@ + ": "@ + t } else { t })
        } else {
            rest
        }
    }
}


/// Object members come in strictly increasing key order, at every level.
pub open spec fn keys_sorted(v: JsonValue) -> bool
    decreases v, 0nat,
{
    match v {
        JsonValue::Array(a) => items_sorted(a@),
        JsonValue::Object(o) => {
            &&& forall|i: int, j: int| 0 <= i < j < o@.len() ==> lex_le(o@[i].0@, o@[j].0@) && o@[i].0@ != o@[j].0@
            &&& members_sorted(o@)
        },
        _ => true,
    }
}

pub open spec fn items_sorted(a: Seq<JsonValue>) -> bool
    decreases a, 1nat,
{
    a.len() == 0 || (items_sorted(a.drop_last()) && keys_sorted(a.last()))
}

pub open spec fn members_sorted(o: Seq<(String, JsonValue)>) -> bool
    decreases o, 1nat,
{
    o.len() == 0 || (members_sorted(o.drop_last()) && keys_sorted(o.last().1))
}

/// No nesting depth that the conversion computes overflows a `usize`.
pub open spec fn depth_fits(c: &JsonFingerprintConfig, v: JsonValue, depth: nat) -> bool
    decreases v, 0nat,
{
    depth > c.max_depth || match v {
        JsonValue::Array(a) => a@.len() == 0 || (depth < usize::MAX && items_fit(c, a@, depth + 1)),
        JsonValue::Object(o) => members_fit(c, o@, (depth + 1) as nat),
        _ => true,
    }
}

pub open spec fn items_fit(c: &JsonFingerprintConfig, a: Seq<JsonValue>, depth: nat) -> bool
    decreases a, 1nat,
{
    a.len() == 0 || (items_fit(c, a.drop_last(), depth) && depth_fits(c, a.last(), depth))
}

pub open spec fn members_fit(c: &JsonFingerprintConfig, o: Seq<(String, JsonValue)>, depth: nat) -> bool
    decreases o, 1nat,
{
    o.len() == 0 || (members_fit(c, o.drop_last(), depth)
        && (field_kept(c, o.last().0@) ==> depth <= usize::MAX && depth_fits(c, o.last().1, depth)))
}

/// Whether a field is kept (`should_include_field`).
pub fn should_include_field(c: &JsonFingerprintConfig, field: &String) -> (b: bool)
    ensures
        b == field_kept(c, field@),
{
    match &c.exclude_fields {
        Some(ex) => {
            if crate::facets::string_in(ex, field) {
                return false;
            }
        },
        None => {},
    }
    match &c.include_fields {
        Some(inc) => crate::facets::string_in(inc, field),
        None => true,
    }
}

/// The strings joined with `sep` between them.
pub fn join_strings(parts: &Vec<String>, sep: &str) -> (s: String)
    ensures
        s@ == join(string_views(parts@), sep@),
{
    let mut s = String::new();
    let mut i: usize = 0;
    assert(string_views(parts@).take(0) =~= Seq::<Seq<char>>::empty());
    while i < parts.len()
        invariant
            i <= parts@.len(),
            s@ == join(string_views(parts@).take(i as int), sep@),
        decreases parts.len() - i,
    {
        let ghost t = string_views(parts@).take(i + 1);
        assert(t.drop_last() =~= string_views(parts@).take(i as int));
        assert(t.last() == parts@[i as int]@);
        if i > 0 {
            push_str(&mut s, sep);
        } else {
            assert(t =~= seq![parts@[0]@]);
        }
        push_str(&mut s, parts[i].as_str());
        i += 1;
    }
    assert(string_views(parts@).take(parts@.len() as int) =~= string_views(parts@));
    s
}

/// A string value as the conversion writes it.
fn value_text(c: &JsonFingerprintConfig, s: &String) -> (r: String)
    ensures
        r@ == (if c.normalize_values { trim_ws(lowercase(s@)) } else { s@ }),
{
    if c.normalize_values {
        let l = to_lower(s.as_str());
        let cs = chars_of(l.as_str());
        let t = trim_chars(&cs);
        string_of_chars(&t)
    } else {
        s.clone()
    }
}

/// The text of a JSON value at nesting depth `depth`, as `json_text` says
/// (`json_to_text`).
pub fn json_to_text(c: &JsonFingerprintConfig, v: &JsonValue, depth: usize) -> (s: String)
    requires
        depth_fits(c, *v, depth as nat),
        c.sort_keys ==> keys_sorted(*v),
    ensures
        s@ == json_text(c, *v, depth as nat),
    decreases v,
{
    if depth > c.max_depth {
        return "[MAX_DEPTH]".to_owned();
    }
    match v {
        JsonValue::Null => "null".to_owned(),
        JsonValue::Bool(b) => if *b { "true".to_owned() } else { "false".to_owned() },
        JsonValue::Number(n) => n.clone(),
        JsonValue::Str(t) => value_text(c, t),
        JsonValue::Array(a) => {
            let mut parts: Vec<String> = Vec::new();
            let mut i: usize = 0;
            assert(a@.take(0) =~= Seq::<JsonValue>::empty());
            assert(string_views(parts@) =~= Seq::<Seq<char>>::empty());
            while i < a.len()
                invariant
                    *v == JsonValue::Array(*a),
                    i <= a@.len(),
                    depth <= c.max_depth,
                    a@.len() > 0 ==> depth < usize::MAX && items_fit(c, a@, (depth + 1) as nat),
                    c.sort_keys ==> items_sorted(a@),
                    string_views(parts@) == items_text(c, a@.take(i as int), (depth + 1) as nat),
                decreases a.len() - i,
            {
                let ghost t = a@.take(i + 1);
                assert(t.drop_last() =~= a@.take(i as int));
                assert(t.last() == a@[i as int]);
                proof {
                    lemma_items_at(c, a@, i as int, (depth + 1) as nat);
                }
                assert(decreases_to!(*v => v->Array_0));
                assert(v->Array_0 == *a);
                assert(decreases_to!(*a => a@));
                assert(decreases_to!(a@ => a@[i as int]));
                assert(decreases_to!(*v => a@[i as int]));
                let p = json_to_text(c, &a[i], depth + 1);
                let ghost before = parts@;
                parts.push(p);
                assert(string_views(parts@) =~= string_views(before).push(p@));
                i += 1;
            }
            assert(a@.take(a@.len() as int) =~= a@);
            let body = join_strings(&parts, ", ");
            let mut s = "[".to_owned();
            push_str(&mut s, body.as_str());
            push_str(&mut s, "]");
            s
        },
        JsonValue::Object(o) => {
            let mut parts: Vec<String> = Vec::new();
            let mut i: usize = 0;
            assert(o@.take(0) =~= Seq::<(String, JsonValue)>::empty());
            assert(string_views(parts@) =~= Seq::<Seq<char>>::empty());
            while i < o.len()
                invariant
                    *v == JsonValue::Object(*o),
                    i <= o@.len(),
                    depth <= c.max_depth,
                    members_fit(c, o@, (depth + 1) as nat),
                    c.sort_keys ==> members_sorted(o@),
                    string_views(parts@) == members_text(c, o@.take(i as int), (depth + 1) as nat),
                decreases o.len() - i,
            {
                let ghost t = o@.take(i + 1);
                assert(t.drop_last() =~= o@.take(i as int));
                assert(t.last() == o@[i as int]);
                proof {
                    lemma_members_at(c, o@, i as int, (depth + 1) as nat);
                }
                let k = &o[i].0;
                if should_include_field(c, k) {
                    assert(decreases_to!(*v => v->Object_0));
                    assert(v->Object_0 == *o);
                    assert(decreases_to!(*o => o@));
                    assert(decreases_to!(o@ => o@[i as int]));
                    assert(decreases_to!(o@[i as int] => o@[i as int].1));
                    assert(decreases_to!(*v => o@[i as int].1));
                    let vt = json_to_text(c, &o[i].1, depth + 1);
                    let ghost before = parts@;
                    if c.include_field_names {
                        let mut e = k.clone();
                        push_str(&mut e, ": ");
                        push_str(&mut e, vt.as_str());
                        parts.push(e);
                        assert(string_views(parts@) =~= string_views(before).push(e@));
                    } else {
                        parts.push(vt);
                        assert(string_views(parts@) =~= string_views(before).push(vt@));
                    }
                }
                i += 1;
            }
            assert(o@.take(o@.len() as int) =~= o@);
            let body = join_strings(&parts, ", ");
            let mut s = "{".to_owned();
            push_str(&mut s, body.as_str());
            push_str(&mut s, "}");
            s
        },
    }
}

proof fn lemma_items_at(c: &JsonFingerprintConfig, a: Seq<JsonValue>, i: int, d: nat)
    requires
        0 <= i < a.len(),
        items_fit(c, a, d),
    ensures
        depth_fits(c, a[i], d),
        items_sorted(a) ==> keys_sorted(a[i]),
    decreases a.len(),
{
    if i < a.len() - 1 {
        lemma_items_at(c, a.drop_last(), i, d);
        assert(a.drop_last()[i] == a[i]);
    }
}

proof fn lemma_members_at(c: &JsonFingerprintConfig, o: Seq<(String, JsonValue)>, i: int, d: nat)
    requires
        0 <= i < o.len(),
        members_fit(c, o, d),
    ensures
        field_kept(c, o[i].0@) ==> d <= usize::MAX && depth_fits(c, o[i].1, d),
        members_sorted(o) ==> keys_sorted(o[i].1),
    decreases o.len(),
{
    if i < o.len() - 1 {
        lemma_members_at(c, o.drop_last(), i, d);
        assert(o.drop_last()[i] == o[i]);
    }
}


/// Scanning `s` from the left for `sep`: the pieces completed so far and
/// the piece in progress.
pub open spec fn split_scan(s: Seq<char>, sep: char) -> (Seq<Seq<char>>, Seq<char>)
    decreases s.len(),
{
    if s.len() == 0 {
        (seq![], seq![])
    } else {
        let (done, cur) = split_scan(s.drop_last(), sep);
        if s.last() == sep { (done.push(cur), seq![]) } else { (done, cur.push(s.last())) }
    }
}

/// The pieces of `s` between occurrences of `sep` (`str::split`): always
/// at least one, empty ones included.
pub open spec fn split_on(s: Seq<char>, sep: char) -> Seq<Seq<char>> {
    split_scan(s, sep).0.push(split_scan(s, sep).1)
}

/// The pieces of `s` between occurrences of `sep`.
pub fn split_on_char(s: &str, sep: char) -> (r: Vec<String>)
    ensures
        string_views(r@) == split_on(s@, sep),
{
    let cs = chars_of(s);
    let mut done: Vec<String> = Vec::new();
    let mut cur: Vec<char> = Vec::new();
    let mut i: usize = 0;
    assert(cs@.take(0) =~= Seq::<char>::empty());
    assert(string_views(done@) =~= Seq::<Seq<char>>::empty());
    while i < cs.len()
        invariant
            i <= cs@.len(),
            cs@ == s@,
            string_views(done@) == split_scan(cs@.take(i as int), sep).0,
            cur@ == split_scan(cs@.take(i as int), sep).1,
        decreases cs.len() - i,
    {
        let ghost t = cs@.take(i + 1);
        assert(t.drop_last() =~= cs@.take(i as int));
        assert(t.last() == cs@[i as int]);
        if cs[i] == sep {
            let w = string_of_chars(&cur);
            let ghost before = done@;
            done.push(w);
            assert(string_views(done@) =~= string_views(before).push(cur@));
            cur = Vec::new();
            assert(cur@ =~= Seq::<char>::empty());
        } else {
            cur.push(cs[i]);
        }
        i += 1;
    }
    assert(cs@.take(cs@.len() as int) =~= cs@);
    let w = string_of_chars(&cur);
    let ghost before = done@;
    done.push(w);
    assert(string_views(done@) =~= string_views(before).push(cur@));
    done
}

/// A JSON value as plain data.
pub enum JsonView {
    Null,
    Bool(bool),
    Number(Seq<char>),
    Str(Seq<char>),
    Array(Seq<JsonView>),
    Object(Seq<(Seq<char>, JsonView)>),
}

/// The plain data of a JSON value.
pub open spec fn json_view(v: JsonValue) -> JsonView
    decreases v, 0nat,
{
    match v {
        JsonValue::Null => JsonView::Null,
        JsonValue::Bool(b) => JsonView::Bool(b),
        JsonValue::Number(n) => JsonView::Number(n@),
        JsonValue::Str(t) => JsonView::Str(t@),
        JsonValue::Array(a) => JsonView::Array(items_view(a@)),
        JsonValue::Object(o) => JsonView::Object(members_view(o@)),
    }
}

pub open spec fn items_view(a: Seq<JsonValue>) -> Seq<JsonView>
    decreases a, 1nat,
{
    if a.len() == 0 {
        seq![]
    } else {
        items_view(a.drop_last()).push(json_view(a.last()))
    }
}

pub open spec fn members_view(o: Seq<(String, JsonValue)>) -> Seq<(Seq<char>, JsonView)>
    decreases o, 1nat,
{
    if o.len() == 0 {
        seq![]
    } else {
        members_view(o.drop_last()).push((o.last().0@, json_view(o.last().1)))
    }
}

proof fn lemma_items_view(a: Seq<JsonValue>)
    ensures
        items_view(a).len() == a.len(),
        forall|i: int| 0 <= i < a.len() ==> #[trigger] items_view(a)[i] == json_view(a[i]),
    decreases a.len(),
{
    if a.len() > 0 {
        lemma_items_view(a.drop_last());
        assert forall|i: int| 0 <= i < a.len() implies #[trigger] items_view(a)[i] == json_view(a[i]) by {
            if i < a.len() - 1 {
                assert(a.drop_last()[i] == a[i]);
            }
        }
    }
}

proof fn lemma_members_view(o: Seq<(String, JsonValue)>)
    ensures
        members_view(o).len() == o.len(),
        forall|i: int| 0 <= i < o.len() ==> #[trigger] members_view(o)[i] == (o[i].0@, json_view(o[i].1)),
    decreases o.len(),
{
    if o.len() > 0 {
        lemma_members_view(o.drop_last());
        assert forall|i: int| 0 <= i < o.len() implies #[trigger] members_view(o)[i] == (o[i].0@, json_view(o[i].1)) by {
            if i < o.len() - 1 {
                assert(o.drop_last()[i] == o[i]);
            }
        }
    }
}

/// The value of the first member of `o` with key `k`, if any.
pub open spec fn member_of(o: Seq<(Seq<char>, JsonView)>, k: Seq<char>) -> Option<JsonView>
    decreases o.len(),
{
    if o.len() == 0 {
        None
    } else if o[0].0 == k {
        Some(o[0].1)
    } else {
        member_of(o.drop_first(), k)
    }
}

/// The value reached from `v` by following `parts` through object members,
/// or null when a part is missing or a value on the way is not an object.
pub open spec fn extract(v: JsonView, parts: Seq<Seq<char>>) -> JsonView
    decreases parts.len(),
{
    if parts.len() == 0 {
        v
    } else {
        match v {
            JsonView::Object(o) => match member_of(o, parts[0]) {
                Some(x) => extract(x, parts.drop_first()),
                None => JsonView::Null,
            },
            _ => JsonView::Null,
        }
    }
}

/// A deep copy of a JSON value.
pub fn copy_json(v: &JsonValue) -> (r: JsonValue)
    ensures
        json_view(r) == json_view(*v),
    decreases v,
{
    match v {
        JsonValue::Null => JsonValue::Null,
        JsonValue::Bool(b) => JsonValue::Bool(*b),
        JsonValue::Number(n) => JsonValue::Number(n.clone()),
        JsonValue::Str(t) => JsonValue::Str(t.clone()),
        JsonValue::Array(a) => {
            let mut out: Vec<JsonValue> = Vec::new();
            let mut i: usize = 0;
            while i < a.len()
                invariant
                    *v == JsonValue::Array(*a),
                    i <= a@.len(),
                    out@.len() == i,
                    forall|j: int| 0 <= j < i ==> json_view(#[trigger] out@[j]) == json_view(a@[j]),
                decreases a.len() - i,
            {
                assert(decreases_to!(*v => v->Array_0));
                assert(v->Array_0 == *a);
                assert(decreases_to!(*a => a@));
                assert(decreases_to!(a@ => a@[i as int]));
                let x = copy_json(&a[i]);
                out.push(x);
                i += 1;
            }
            proof {
                lemma_items_view(out@);
                lemma_items_view(a@);
                assert(items_view(out@) =~= items_view(a@));
            }
            JsonValue::Array(out)
        },
        JsonValue::Object(o) => {
            let mut out: Vec<(String, JsonValue)> = Vec::new();
            let mut i: usize = 0;
            while i < o.len()
                invariant
                    *v == JsonValue::Object(*o),
                    i <= o@.len(),
                    out@.len() == i,
                    forall|j: int| 0 <= j < i ==> (#[trigger] out@[j]).0@ == o@[j].0@ && json_view(out@[j].1) == json_view(o@[j].1),
                decreases o.len() - i,
            {
                assert(decreases_to!(*v => v->Object_0));
                assert(v->Object_0 == *o);
                assert(decreases_to!(*o => o@));
                assert(decreases_to!(o@ => o@[i as int]));
                assert(decreases_to!(o@[i as int] => o@[i as int].1));
                let x = copy_json(&o[i].1);
                out.push((o[i].0.clone(), x));
                i += 1;
            }
            proof {
                lemma_members_view(out@);
                lemma_members_view(o@);
                assert(members_view(out@) =~= members_view(o@));
            }
            JsonValue::Object(out)
        },
    }
}

/// The value at a dotted path (`extract_field_value`): the path is split at
/// dots and followed through object members; null where it leads nowhere.
pub fn extract_field_value(value: &JsonValue, path: &str) -> (r: JsonValue)
    ensures
        json_view(r) == extract(json_view(*value), split_on(path@, '.')),
{
    let parts = split_on_char(path, '.');
    let ghost ps = string_views(parts@);
    let mut cur: &JsonValue = value;
    let mut i: usize = 0;
    assert(ps.skip(0) =~= ps);
    while i < parts.len()
        invariant
            i <= parts@.len(),
            ps == string_views(parts@),
            ps == split_on(path@, '.'),
            extract(json_view(*value), ps) == extract(json_view(*cur), ps.skip(i as int)),
        decreases parts.len() - i,
    {
        let ghost rest = ps.skip(i as int);
        assert(rest[0] == parts@[i as int]@);
        assert(rest.drop_first() =~= ps.skip(i + 1));
        match cur {
            JsonValue::Object(o) => {
                let ghost mv = members_view(o@);
                proof {
                    lemma_members_view(o@);
                    assert(mv.skip(0) =~= mv);
                }
                let mut k: usize = 0;
                let mut found: Option<usize> = None;
                while k < o.len()
                    invariant_except_break
                        found is None,
                    invariant
                        k <= o@.len(),
                        i < parts@.len(),
                        mv == members_view(o@),
                        mv.len() == o@.len(),
                        forall|j: int| 0 <= j < o@.len() ==> #[trigger] mv[j] == (o@[j].0@, json_view(o@[j].1)),
                        member_of(mv, rest[0]) == member_of(mv.skip(k as int), rest[0]),
                        rest[0] == parts@[i as int]@,
                    ensures
                        match found {
                            Some(x) => x < o@.len() && member_of(mv, rest[0]) == Some(json_view(o@[x as int].1)),
                            None => member_of(mv, rest[0]) is None,
                        },
                    decreases o.len() - k,
                {
                    let ghost tail = mv.skip(k as int);
                    assert(tail.drop_first() =~= mv.skip(k + 1));
                    assert(tail[0] == mv[k as int]);
                    if o[k].0 == parts[i] {
                        found = Some(k);
                        break;
                    }
                    k += 1;
                }
                match found {
                    Some(k) => {
                        cur = &o[k].1;
                    },
                    None => {
                        return JsonValue::Null;
                    },
                }
            },
            _ => {
                return JsonValue::Null;
            },
        }
        i += 1;
    }
    proof {
        assert(ps.skip(i as int).len() == 0);
    }
    copy_json(cur)
}

} // verus!

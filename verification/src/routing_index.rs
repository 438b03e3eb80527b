use vstd::prelude::*;

use crate::distribution::{RoutingTable, index_entry_of};
use crate::strmap::entries_map;
use crate::text::{chars_of};

verus! {

/// The pieces of `s` between the occurrences of `d`; `n` occurrences give
/// `n + 1` pieces.
pub open spec fn split_char(s: Seq<char>, d: char) -> Seq<Seq<char>>
    decreases s.len(),
{
    if s.len() == 0 {
        seq![Seq::<char>::empty()]
    } else {
        let r = split_char(s.drop_last(), d);
        if s.last() == d {
            r.push(Seq::<char>::empty())
        } else {
            r.update(r.len() - 1, r.last().push(s.last()))
        }
    }
}

/// A line without its carriage return, if it has one at the end.
pub open spec fn strip_cr(l: Seq<char>) -> Seq<char> {
    if l.len() > 0 && l.last() == '\r' { l.drop_last() } else { l }
}

/// Each line without its trailing carriage return.
pub open spec fn strip_all(s: Seq<Seq<char>>) -> Seq<Seq<char>> {
    s.map_values(|l: Seq<char>| strip_cr(l))
}

/// The lines of a text as `str::lines` gives them: split at each newline,
/// a carriage return before a newline dropped, and no empty last line
/// after a final newline.
pub open spec fn lines_of(s: Seq<char>) -> Seq<Seq<char>> {
    let p = split_char(s, '\n');
    let full = strip_all(p.drop_last());
    if p.last().len() == 0 { full } else { full.push(p.last()) }
}

/// The position of the first `:` in `l`, if any.
pub open spec fn first_colon(l: Seq<char>) -> Option<int>
    decreases l.len(),
{
    if l.len() == 0 {
        None
    } else {
        match first_colon(l.drop_last()) {
            Some(i) => Some(i),
            None => if l.last() == ':' { Some(l.len() - 1) } else { None },
        }
    }
}

/// The assignment a line of the routing index records: the text before
/// its first `:` and the text after it.
pub open spec fn parse_line(l: Seq<char>) -> Option<(Seq<char>, Seq<char>)> {
    match first_colon(l) {
        Some(i) => Some((l.take(i), l.skip(i + 1))),
        None => None,
    }
}

/// The assignments recorded by the lines, in order.
pub open spec fn parsed_pairs(lines: Seq<Seq<char>>) -> Seq<(Seq<char>, Seq<char>)>
    decreases lines.len(),
{
    if lines.len() == 0 {
        Seq::empty()
    } else {
        let r = parsed_pairs(lines.drop_last());
        match parse_line(lines.last()) {
            Some(p) => r.push(p),
            None => r,
        }
    }
}

/// The table that the pairs give when inserted in order.
pub open spec fn pairs_table(p: Seq<(Seq<char>, Seq<char>)>) -> Map<Seq<char>, Seq<char>>
    decreases p.len(),
{
    if p.len() == 0 {
        Map::empty()
    } else {
        pairs_table(p.drop_last()).insert(p.last().0, p.last().1)
    }
}

/// The routing index text recording `entries` in order.
pub open spec fn rendered(entries: Seq<(Seq<char>, Seq<char>)>) -> Seq<char>
    decreases entries.len(),
{
    if entries.len() == 0 {
        Seq::empty()
    } else {
        rendered(entries.drop_last()) + index_entry_of(entries.last().0, entries.last().1)
    }
}

proof fn lemma_parsed_push(xs: Seq<Seq<char>>, y: Seq<char>)
    ensures
        pairs_table(parsed_pairs(xs.push(y))) == match parse_line(y) {
            Some(p) => pairs_table(parsed_pairs(xs)).insert(p.0, p.1),
            None => pairs_table(parsed_pairs(xs)),
        },
{
    assert(xs.push(y).drop_last() =~= xs);
    match parse_line(y) {
        Some(p) => {
            assert(parsed_pairs(xs.push(y)).drop_last() =~= parsed_pairs(xs));
        },
        None => {},
    }
}

fn first_colon_exec(l: &Vec<char>) -> (r: Option<usize>)
    ensures
        match r {
            Some(i) => first_colon(l@) == Some(i as int) && i < l@.len(),
            None => first_colon(l@).is_none(),
        },
{
    let mut i: usize = 0;
    while i < l.len()
        invariant
            i <= l@.len(),
            first_colon(l@.take(i as int)).is_none(),
        decreases l@.len() - i,
    {
        assert(l@.take(i + 1).drop_last() =~= l@.take(i as int));
        if l[i] == ':' {
            proof {
                lemma_first_colon_prefix(l@, i as int);
            }
            return Some(i);
        }
        i += 1;
    }
    assert(l@.take(l@.len() as int) =~= l@);
    None
}

proof fn lemma_first_colon_prefix(l: Seq<char>, i: int)
    requires
        0 <= i < l.len(),
        l[i] == ':',
        first_colon(l.take(i)).is_none(),
    ensures
        first_colon(l) == Some(i),
    decreases l.len(),
{
    if i < l.len() - 1 {
        let w = l.drop_last();
        assert(w.take(i) =~= l.take(i));
        lemma_first_colon_prefix(w, i);
    } else {
        assert(l.drop_last() =~= l.take(i));
    }
}

fn collect_range(v: &Vec<char>, a: usize, b: usize) -> (s: String)
    requires
        a <= b <= v@.len(),
    ensures
        s@ == v@.subrange(a as int, b as int),
{
    let mut s = String::new();
    let mut k = a;
    while k < b
        invariant
            a <= k <= b,
            b <= v@.len(),
            s@ == v@.subrange(a as int, k as int),
        decreases b - k,
    {
        crate::text::push_char(&mut s, v[k]);
        k += 1;
        assert(s@ =~= v@.subrange(a as int, k as int));
    }
    s
}

fn apply_line(table: &mut RoutingTable, line: &Vec<char>)
    requires
        old(table).wf(),
    ensures
        final(table).wf(),
        final(table).view() == match parse_line(line@) {
            Some(p) => old(table).view().insert(p.0, p.1),
            None => old(table).view(),
        },
{
    match first_colon_exec(line) {
        Some(i) => {
            let k = collect_range(line, 0, i);
            let n = line.len();
            let v = collect_range(line, i + 1, n);
            assert(line@.take(i as int) =~= line@.subrange(0, i as int));
            assert(line@.skip(i + 1) =~= line@.subrange(i + 1, line@.len() as int));
            table.insert(k, v);
        },
        None => {},
    }
}

/// Loads a routing index: each line `<key>:<shard>` assigns the key to the
/// shard (the first `:` separates them; later lines win); lines without a
/// `:` are skipped. Also gives the round robin counter to continue with:
/// the number of keys assigned.
pub fn load_routing_index(content: &str) -> (r: (RoutingTable, usize))
    ensures
        r.0.wf(),
        r.0.view() == pairs_table(parsed_pairs(lines_of(content@))),
        r.1 == r.0.view().dom().len(),
{
    let chars = chars_of(content);
    let mut table = RoutingTable::new();
    let mut line: Vec<char> = Vec::new();
    let ghost mut done: Seq<Seq<char>> = Seq::empty();
    let mut i: usize = 0;
    assert(content@.take(0) =~= Seq::<char>::empty());
    while i < chars.len()
        invariant
            i <= chars@.len(),
            chars@ == content@,
            table.wf(),
            split_char(content@.take(i as int), '\n') == done.push(line@),
            table.view() == pairs_table(parsed_pairs(strip_all(done))),
        decreases chars@.len() - i,
    {
        let c = chars[i];
        assert(content@.take(i + 1).drop_last() =~= content@.take(i as int));
        assert(content@.take(i + 1).last() == c);
        if c == '\n' {
            let mut l = line;
            if l.len() > 0 && l[l.len() - 1] == '\r' {
                l.pop();
            }
            let ghost stripped = l@;
            apply_line(&mut table, &l);
            proof {
                let full = strip_all(done);
                let old_line = split_char(content@.take(i as int), '\n').last();
                assert(strip_cr(old_line) == stripped);
                done = done.push(old_line);
                assert(strip_all(done) =~= full.push(stripped));
                lemma_parsed_push(full, stripped);
            }
            line = Vec::new();
            assert(split_char(content@.take(i + 1), '\n') =~= done.push(line@));
        } else {
            line.push(c);
            assert(split_char(content@.take(i + 1), '\n') =~= done.push(line@));
        }
        i += 1;
    }
    assert(content@.take(chars@.len() as int) =~= content@);
    proof {
        let p = split_char(content@, '\n');
        assert(p.drop_last() =~= done);
    }
    if line.len() > 0 {
        apply_line(&mut table, &line);
        proof {
            let full = strip_all(done);
            assert(lines_of(content@) =~= full.push(line@));
            lemma_parsed_push(full, line@);
        }
    } else {
        proof {
            assert(lines_of(content@) =~= strip_all(done));
        }
    }
    let n = table.len();
    (table, n)
}

/// A key and shard name that the routing index can record faithfully: the
/// key holds no `:` and no newline, the shard name holds no newline and
/// does not end with a carriage return.
pub open spec fn recordable(e: (Seq<char>, Seq<char>)) -> bool {
    &&& !e.0.contains(':')
    &&& !e.0.contains('\n')
    &&& !e.1.contains('\n')
    &&& !(e.1.len() > 0 && e.1.last() == '\r')
}

/// The line of the routing index recording one assignment, without the
/// newline.
pub open spec fn entry_line(e: (Seq<char>, Seq<char>)) -> Seq<char> {
    e.0 + seq![':'] + e.1
}

proof fn lemma_split_append(x: Seq<char>, y: Seq<char>, d: char)
    requires
        !y.contains(d),
    ensures
        split_char(x + y, d) == split_char(x, d).update(
            split_char(x, d).len() - 1,
            split_char(x, d).last() + y,
        ),
        split_char(x, d).len() >= 1,
    decreases y.len(),
{
    lemma_split_nonempty(x, d);
    if y.len() == 0 {
        assert(x + y =~= x);
        assert(split_char(x, d).last() + y =~= split_char(x, d).last());
        assert(split_char(x, d).update(split_char(x, d).len() - 1, split_char(x, d).last()) =~= split_char(x, d));
    } else {
        let y0 = y.drop_last();
        assert(!y0.contains(d)) by {
            if y0.contains(d) {
                let i = choose|i: int| 0 <= i < y0.len() && y0[i] == d;
                assert(y[i] == d);
            }
        }
        lemma_split_append(x, y0, d);
        assert((x + y).drop_last() =~= x + y0);
        assert((x + y).last() == y.last());
        assert(y.last() != d) by {
            assert(y[y.len() - 1] == y.last());
        }
        let r0 = split_char(x, d);
        assert(split_char(x + y, d) =~= r0.update(r0.len() - 1, r0.last() + y)) by {
            assert(r0.last() + y0.push(y.last()) =~= r0.last() + y);
            assert(y0.push(y.last()) =~= y);
        }
    }
}

proof fn lemma_split_nonempty(x: Seq<char>, d: char)
    ensures
        split_char(x, d).len() >= 1,
    decreases x.len(),
{
    if x.len() > 0 {
        lemma_split_nonempty(x.drop_last(), d);
    }
}

/// The lines of the rendered index, followed by the empty piece after the
/// final newline.
proof fn lemma_split_rendered(entries: Seq<(Seq<char>, Seq<char>)>)
    requires
        forall|i: int| 0 <= i < entries.len() ==> recordable(#[trigger] entries[i]),
    ensures
        split_char(rendered(entries), '\n') == entries.map_values(|e: (Seq<char>, Seq<char>)| entry_line(e)).push(
            Seq::<char>::empty(),
        ),
    decreases entries.len(),
{
    let lines = entries.map_values(|e: (Seq<char>, Seq<char>)| entry_line(e));
    if entries.len() == 0 {
        assert(lines.push(Seq::<char>::empty()) =~= seq![Seq::<char>::empty()]);
    } else {
        let prev = entries.drop_last();
        let e = entries.last();
        assert(forall|i: int| 0 <= i < prev.len() ==> recordable(#[trigger] prev[i])) by {
            assert forall|i: int| 0 <= i < prev.len() implies recordable(#[trigger] prev[i]) by {
                assert(prev[i] == entries[i]);
            }
        }
        lemma_split_rendered(prev);
        assert(recordable(entries[entries.len() - 1]));
        let y = entry_line(e);
        assert(!y.contains('\n')) by {
            if y.contains('\n') {
                let i = choose|i: int| 0 <= i < y.len() && y[i] == '\n';
                if i < e.0.len() {
                    assert(e.0[i] == '\n');
                } else if i > e.0.len() {
                    assert(e.1[i - e.0.len() - 1] == '\n');
                }
            }
        }
        let r = rendered(prev);
        lemma_split_append(r, y, '\n');
        assert(rendered(entries) =~= (r + y).push('\n'));
        assert((r + y).push('\n').drop_last() =~= r + y);
        let prev_lines = prev.map_values(|e: (Seq<char>, Seq<char>)| entry_line(e));
        assert(split_char(r, '\n') == prev_lines.push(Seq::<char>::empty()));
        assert(Seq::<char>::empty() + y =~= y);
        assert(prev_lines.push(Seq::<char>::empty()).update(prev_lines.len() as int, y) =~= prev_lines.push(y));
        assert(lines =~= prev_lines.push(y));
    }
}

proof fn lemma_no_colon(a: Seq<char>)
    requires
        !a.contains(':'),
    ensures
        first_colon(a).is_none(),
    decreases a.len(),
{
    if a.len() > 0 {
        assert(!a.drop_last().contains(':')) by {
            if a.drop_last().contains(':') {
                let i = choose|i: int| 0 <= i < a.drop_last().len() && a.drop_last()[i] == ':';
                assert(a[i] == ':');
            }
        }
        lemma_no_colon(a.drop_last());
        assert(a[a.len() - 1] != ':');
    }
}

proof fn lemma_first_colon_after(a: Seq<char>, b: Seq<char>)
    requires
        !a.contains(':'),
        b.len() > 0,
        b[0] == ':',
    ensures
        first_colon(a + b) == Some(a.len() as int),
    decreases b.len(),
{
    if b.len() == 1 {
        lemma_no_colon(a);
        assert((a + b).drop_last() =~= a);
    } else {
        lemma_first_colon_after(a, b.drop_last());
        assert((a + b).drop_last() =~= a + b.drop_last());
    }
}

/// Writing assignments to the routing index and loading it back gives the
/// same assignments, in the same order, for keys without `:` or newline and
/// shard names without newline or a final carriage return.
pub proof fn lemma_routing_index_roundtrip(entries: Seq<(Seq<char>, Seq<char>)>)
    requires
        forall|i: int| 0 <= i < entries.len() ==> recordable(#[trigger] entries[i]),
    ensures
        parsed_pairs(lines_of(rendered(entries))) == entries,
        pairs_table(parsed_pairs(lines_of(rendered(entries)))) == pairs_table(entries),
{
    lemma_split_rendered(entries);
    let lines = entries.map_values(|e: (Seq<char>, Seq<char>)| entry_line(e));
    let p = split_char(rendered(entries), '\n');
    assert(p.drop_last() =~= lines);
    assert(lines_of(rendered(entries)) == strip_all(lines));
    lemma_parse_lines(entries);
}

proof fn lemma_parse_lines(entries: Seq<(Seq<char>, Seq<char>)>)
    requires
        forall|i: int| 0 <= i < entries.len() ==> recordable(#[trigger] entries[i]),
    ensures
        parsed_pairs(strip_all(entries.map_values(|e: (Seq<char>, Seq<char>)| entry_line(e)))) == entries,
    decreases entries.len(),
{
    let lines = entries.map_values(|e: (Seq<char>, Seq<char>)| entry_line(e));
    if entries.len() > 0 {
        let prev = entries.drop_last();
        let e = entries.last();
        assert(forall|i: int| 0 <= i < prev.len() ==> recordable(#[trigger] prev[i])) by {
            assert forall|i: int| 0 <= i < prev.len() implies recordable(#[trigger] prev[i]) by {
                assert(prev[i] == entries[i]);
            }
        }
        lemma_parse_lines(prev);
        assert(recordable(entries[entries.len() - 1]));
        let prev_lines = prev.map_values(|e: (Seq<char>, Seq<char>)| entry_line(e));
        assert(lines =~= prev_lines.push(entry_line(e)));
        let y = entry_line(e);
        assert(strip_cr(y) == y) by {
            if e.1.len() > 0 {
                assert(y.last() == e.1.last());
            } else {
                assert(y.last() == ':');
            }
        }
        assert(strip_all(lines) =~= strip_all(prev_lines).push(y));
        assert(strip_all(lines).drop_last() =~= strip_all(prev_lines));
        assert(y == e.0 + (seq![':'] + e.1));
        lemma_first_colon_after(e.0, seq![':'] + e.1);
        assert(y.take(e.0.len() as int) =~= e.0);
        assert(y.skip(e.0.len() + 1int) =~= e.1);
        assert(parsed_pairs(strip_all(lines)) =~= entries);
    } else {
        assert(strip_all(lines) =~= Seq::<Seq<char>>::empty());
    }
}

} // verus!

use vstd::prelude::*;

use std::collections::VecDeque;

use crate::text::{digit_char, int_decimal, nat_decimal, push_char, push_i64_decimal, push_str};

verus! {

broadcast use vstd::std_specs::vecdeque::group_vec_dequeue_axioms;

/// A bounded first-in first-out queue of sample ids for one cell: pushing
/// into a full queue evicts the oldest id.
pub struct SampleIdQueue {
    capacity: usize,
    ids: VecDeque<String>,
}

/// The queue contents after pushing `id` onto `ids` with room for `cap`:
/// a queue with no room keeps nothing.
pub open spec fn queue_push(ids: Seq<String>, cap: nat, id: String) -> Seq<String> {
    if cap == 0 {
        ids
    } else if ids.len() == cap {
        ids.drop_first().push(id)
    } else {
        ids.push(id)
    }
}

/// The contents of an initially empty queue after pushing each of `pushed`.
pub open spec fn queue_after(pushed: Seq<String>, cap: nat) -> Seq<String>
    decreases pushed.len(),
{
    if pushed.len() == 0 {
        Seq::empty()
    } else {
        queue_push(queue_after(pushed.drop_last(), cap), cap, pushed.last())
    }
}

impl SampleIdQueue {
    /// The ids held, oldest first.
    pub closed spec fn ids(&self) -> Seq<String> {
        self.ids@
    }

    /// The number of ids the queue keeps before it evicts.
    pub closed spec fn capacity(&self) -> nat {
        self.capacity as nat
    }

    /// An empty queue that keeps at most `capacity` ids.
    pub fn new(capacity: usize) -> (q: Self)
        ensures
            q.ids() == Seq::<String>::empty(),
            q.capacity() == capacity,
    {
        SampleIdQueue { capacity, ids: VecDeque::new() }
    }

    /// Appends `sample_id`; when the queue already holds `capacity` ids, the
    /// oldest is removed and returned. A queue of capacity zero keeps
    /// nothing: the id pushed is the one evicted.
    pub fn push(&mut self, sample_id: String) -> (evicted: Option<String>)
        ensures
            final(self).capacity() == old(self).capacity(),
            final(self).ids() == queue_push(old(self).ids(), old(self).capacity(), sample_id),
            old(self).capacity() == 0 ==> evicted == Some(sample_id),
            old(self).ids().len() == old(self).capacity() && old(self).capacity() > 0
                ==> evicted == Some(old(self).ids()[0]),
            old(self).capacity() > 0 && old(self).ids().len() != old(self).capacity() ==> evicted.is_none(),
    {
        if self.capacity == 0 {
            return Some(sample_id);
        }
        let evicted = if self.ids.len() == self.capacity {
            self.ids.pop_front()
        } else {
            None
        };
        self.ids.push_back(sample_id);
        evicted
    }

    /// The `n` most recent ids (fewer if the queue holds fewer), newest first.
    pub fn get_latest_ids(&self, n: usize) -> (r: Vec<String>)
        ensures
            r@.len() == if n <= self.ids().len() { n as int } else { self.ids().len() as int },
            forall|k: int| 0 <= k < r@.len() ==> #[trigger] r@[k] == self.ids()[self.ids().len() - 1 - k],
    {
        let len = self.ids.len();
        let take = if n <= len { n } else { len };
        let mut out: Vec<String> = Vec::new();
        let mut k: usize = 0;
        while k < take
            invariant
                take <= len,
                len == self.ids@.len(),
                k <= take,
                out@.len() == k,
                forall|j: int| 0 <= j < k ==> #[trigger] out@[j] == self.ids@[len - 1 - j],
            decreases take - k,
        {
            let id = self.ids[len - 1 - k].clone();
            out.push(id);
            k += 1;
        }
        out
    }

    /// All ids, oldest first.
    pub fn get_all_ids(&self) -> (r: Vec<String>)
        ensures
            r@ == self.ids(),
    {
        let mut out: Vec<String> = Vec::new();
        let mut k: usize = 0;
        while k < self.ids.len()
            invariant
                k <= self.ids@.len(),
                out@ == self.ids@.take(k as int),
            decreases self.ids@.len() - k,
        {
            let id = self.ids[k].clone();
            out.push(id);
            k += 1;
        }
        assert(self.ids@.take(self.ids@.len() as int) =~= self.ids@);
        out
    }

    /// The number of ids held.
    pub fn len(&self) -> (n: usize)
        ensures
            n == self.ids().len(),
    {
        self.ids.len()
    }

    /// Whether the queue holds no id.
    pub fn is_empty(&self) -> (b: bool)
        ensures
            b == (self.ids().len() == 0),
    {
        self.ids.len() == 0
    }
}

/// A queue never holds more than its capacity, whatever is pushed.
pub proof fn lemma_queue_push_bounded(ids: Seq<String>, cap: nat, id: String)
    requires
        ids.len() <= cap,
    ensures
        queue_push(ids, cap, id).len() <= cap,
{
}

/// After pushing any sequence of ids into an empty queue of capacity `cap`,
/// the queue holds exactly the last `cap` of them (all of them if there
/// were fewer), oldest first.
pub proof fn lemma_queue_keeps_latest(pushed: Seq<String>, cap: nat)
    ensures
        queue_after(pushed, cap) == if pushed.len() <= cap {
            pushed
        } else {
            pushed.skip(pushed.len() - cap)
        },
    decreases pushed.len(),
{
    if pushed.len() > 0 {
        let prev = pushed.drop_last();
        lemma_queue_keeps_latest(prev, cap);
        if cap == 0 {
            assert(pushed.skip(pushed.len() as int) =~= Seq::<String>::empty());
            assert(prev.skip(prev.len() as int) =~= Seq::<String>::empty());
        } else if prev.len() < cap {
            assert(prev.push(pushed.last()) =~= pushed);
        } else if prev.len() == cap {
            assert(prev.drop_first().push(pushed.last()) =~= pushed.skip(pushed.len() - cap));
        } else {
            assert(prev.skip(prev.len() - cap).drop_first().push(pushed.last()) =~= pushed.skip(pushed.len() - cap));
        }
    }
}

/// How many coordinates a dimension has.
#[derive(Clone, Copy, PartialEq, Eq, Structural, Debug)]
pub enum DimensionType {
    OneD,
    TwoD,
    ThreeD,
}

/// Optional bounds of a dimension.
pub struct Bounds {
    pub min_x: i64,
    pub max_x: i64,
    pub min_y: Option<i64>,
    pub max_y: Option<i64>,
    pub min_z: Option<i64>,
    pub max_z: Option<i64>,
}

#[derive(Clone, Copy, PartialEq, Eq, Structural, Debug)]
pub struct Coord1D(pub i64);

#[derive(Clone, Copy, PartialEq, Eq, Structural, Debug)]
pub struct Coord2D(pub i64, pub i64);

#[derive(Clone, Copy, PartialEq, Eq, Structural, Debug)]
pub struct Coord3D(pub i64, pub i64, pub i64);

/// A cell address in a one-, two- or three-dimensional space.
#[derive(Clone, Copy, PartialEq, Eq, Structural, Debug)]
pub enum Coordinate {
    OneD(Coord1D),
    TwoD(Coord2D),
    ThreeD(Coord3D),
}

/// The text form of a coordinate: its components in decimal, joined by `_`.
pub open spec fn coordinate_key(c: Coordinate) -> Seq<char> {
    match c {
        Coordinate::OneD(a) => int_decimal(a.0 as int),
        Coordinate::TwoD(a) => int_decimal(a.0 as int) + seq!['_'] + int_decimal(a.1 as int),
        Coordinate::ThreeD(a) => int_decimal(a.0 as int) + seq!['_'] + int_decimal(a.1 as int)
            + seq!['_'] + int_decimal(a.2 as int),
    }
}

/// Every character is a decimal digit.
pub open spec fn all_digits(s: Seq<char>) -> bool {
    forall|k: int| 0 <= k < s.len() ==> '0' <= #[trigger] s[k] <= '9'
}

proof fn lemma_nat_decimal_digits(n: nat)
    ensures
        nat_decimal(n).len() >= 1,
        n >= 10 ==> nat_decimal(n).len() >= 2,
        all_digits(nat_decimal(n)),
    decreases n,
{
    if n >= 10 {
        lemma_nat_decimal_digits(n / 10);
        let p = nat_decimal(n / 10);
        assert forall|k: int| 0 <= k < nat_decimal(n).len() implies '0' <= #[trigger] nat_decimal(n)[k] <= '9' by {
            if k < p.len() {
                assert(nat_decimal(n)[k] == p[k]);
            }
        }
    }
}

proof fn lemma_nat_decimal_injective(a: nat, b: nat)
    requires
        nat_decimal(a) == nat_decimal(b),
    ensures
        a == b,
    decreases a,
{
    lemma_nat_decimal_digits(a);
    lemma_nat_decimal_digits(b);
    if a >= 10 && b >= 10 {
        let pa = nat_decimal(a / 10);
        let pb = nat_decimal(b / 10);
        assert(nat_decimal(a).last() == digit_char(a % 10));
        assert(nat_decimal(b).last() == digit_char(b % 10));
        assert(nat_decimal(a).drop_last() =~= pa);
        assert(nat_decimal(b).drop_last() =~= pb);
        lemma_nat_decimal_injective(a / 10, b / 10);
    } else if a < 10 && b < 10 {
        assert(nat_decimal(a)[0] == digit_char(a));
        assert(nat_decimal(b)[0] == digit_char(b));
    }
}

proof fn lemma_int_decimal(i: int)
    ensures
        int_decimal(i).len() >= 1,
        forall|k: int| 0 <= k < int_decimal(i).len() ==> #[trigger] int_decimal(i)[k] != '_',
{
    if i < 0 {
        lemma_nat_decimal_digits((-i) as nat);
        let d = nat_decimal((-i) as nat);
        assert forall|k: int| 0 <= k < int_decimal(i).len() implies #[trigger] int_decimal(i)[k] != '_' by {
            if k > 0 {
                assert(int_decimal(i)[k] == d[k - 1]);
            }
        }
    } else {
        lemma_nat_decimal_digits(i as nat);
    }
}

proof fn lemma_int_decimal_injective(a: int, b: int)
    requires
        int_decimal(a) == int_decimal(b),
    ensures
        a == b,
{
    lemma_nat_decimal_digits(if a < 0 { (-a) as nat } else { a as nat });
    lemma_nat_decimal_digits(if b < 0 { (-b) as nat } else { b as nat });
    if a < 0 && b < 0 {
        assert(int_decimal(a).drop_first() =~= nat_decimal((-a) as nat));
        assert(int_decimal(b).drop_first() =~= nat_decimal((-b) as nat));
        lemma_nat_decimal_injective((-a) as nat, (-b) as nat);
    } else if a >= 0 && b >= 0 {
        lemma_nat_decimal_injective(a as nat, b as nat);
    } else if a < 0 {
        assert(int_decimal(a)[0] == '-');
        assert('0' <= int_decimal(b)[0] <= '9');
    } else {
        assert(int_decimal(b)[0] == '-');
        assert('0' <= int_decimal(a)[0] <= '9');
    }
}

/// Splitting at the first `_`: two texts joined by `_` whose first parts
/// hold no `_` have the same parts.
proof fn lemma_split_first_underscore(x: Seq<char>, y: Seq<char>, x2: Seq<char>, y2: Seq<char>)
    requires
        x + seq!['_'] + y == x2 + seq!['_'] + y2,
        forall|k: int| 0 <= k < x.len() ==> #[trigger] x[k] != '_',
        forall|k: int| 0 <= k < x2.len() ==> #[trigger] x2[k] != '_',
    ensures
        x == x2,
        y == y2,
{
    let s = x + seq!['_'] + y;
    let s2 = x2 + seq!['_'] + y2;
    if x.len() < x2.len() {
        assert(s[x.len() as int] == '_');
        assert(s2[x.len() as int] == x2[x.len() as int]);
    } else if x2.len() < x.len() {
        assert(s2[x2.len() as int] == '_');
        assert(s[x2.len() as int] == x[x2.len() as int]);
    } else {
        assert(x =~= s.subrange(0, x.len() as int));
        assert(x2 =~= s2.subrange(0, x.len() as int));
        assert(y =~= s.subrange((x.len() + 1) as int, s.len() as int));
        assert(y2 =~= s2.subrange((x.len() + 1) as int, s2.len() as int));
    }
}

/// Distinct coordinates never share a key: the key gives back the number of
/// components and each of them.
pub proof fn lemma_coordinate_key_injective(c1: Coordinate, c2: Coordinate)
    requires
        coordinate_key(c1) == coordinate_key(c2),
    ensures
        c1 == c2,
{
    let k = coordinate_key(c1);
    match (c1, c2) {
        (Coordinate::OneD(a), Coordinate::OneD(b)) => {
            lemma_int_decimal_injective(a.0 as int, b.0 as int);
        },
        (Coordinate::TwoD(a), Coordinate::TwoD(b)) => {
            lemma_int_decimal(a.0 as int);
            lemma_int_decimal(b.0 as int);
            lemma_split_first_underscore(int_decimal(a.0 as int), int_decimal(a.1 as int), int_decimal(b.0 as int), int_decimal(b.1 as int));
            lemma_int_decimal_injective(a.0 as int, b.0 as int);
            lemma_int_decimal_injective(a.1 as int, b.1 as int);
        },
        (Coordinate::ThreeD(a), Coordinate::ThreeD(b)) => {
            lemma_int_decimal(a.0 as int);
            lemma_int_decimal(b.0 as int);
            lemma_int_decimal(a.1 as int);
            lemma_int_decimal(b.1 as int);
            let ya = int_decimal(a.1 as int) + seq!['_'] + int_decimal(a.2 as int);
            let yb = int_decimal(b.1 as int) + seq!['_'] + int_decimal(b.2 as int);
            assert(coordinate_key(c1) =~= int_decimal(a.0 as int) + seq!['_'] + ya);
            assert(coordinate_key(c2) =~= int_decimal(b.0 as int) + seq!['_'] + yb);
            lemma_split_first_underscore(int_decimal(a.0 as int), ya, int_decimal(b.0 as int), yb);
            lemma_split_first_underscore(int_decimal(a.1 as int), int_decimal(a.2 as int), int_decimal(b.1 as int), int_decimal(b.2 as int));
            lemma_int_decimal_injective(a.0 as int, b.0 as int);
            lemma_int_decimal_injective(a.1 as int, b.1 as int);
            lemma_int_decimal_injective(a.2 as int, b.2 as int);
        },
        (Coordinate::OneD(a), Coordinate::TwoD(b)) => {
            lemma_int_decimal(a.0 as int);
            let s = coordinate_key(c2);
            let n = int_decimal(b.0 as int).len();
            assert(s[n as int] == '_');
            assert(k[n as int] != '_');
        },
        (Coordinate::TwoD(a), Coordinate::OneD(b)) => {
            lemma_int_decimal(b.0 as int);
            let n = int_decimal(a.0 as int).len();
            assert(k[n as int] == '_');
            assert(coordinate_key(c2)[n as int] != '_');
        },
        (Coordinate::OneD(a), Coordinate::ThreeD(b)) => {
            lemma_int_decimal(a.0 as int);
            let n = int_decimal(b.0 as int).len();
            assert(coordinate_key(c2)[n as int] == '_');
            assert(k[n as int] != '_');
        },
        (Coordinate::ThreeD(a), Coordinate::OneD(b)) => {
            lemma_int_decimal(b.0 as int);
            let n = int_decimal(a.0 as int).len();
            assert(k[n as int] == '_');
            assert(coordinate_key(c2)[n as int] != '_');
        },
        (Coordinate::TwoD(a), Coordinate::ThreeD(b)) => {
            lemma_int_decimal(a.0 as int);
            lemma_int_decimal(b.0 as int);
            lemma_int_decimal(a.1 as int);
            let yb = int_decimal(b.1 as int) + seq!['_'] + int_decimal(b.2 as int);
            assert(coordinate_key(c2) =~= int_decimal(b.0 as int) + seq!['_'] + yb);
            lemma_split_first_underscore(int_decimal(a.0 as int), int_decimal(a.1 as int), int_decimal(b.0 as int), yb);
            let n = int_decimal(b.1 as int).len();
            assert(yb[n as int] == '_');
        },
        (Coordinate::ThreeD(a), Coordinate::TwoD(b)) => {
            lemma_int_decimal(a.0 as int);
            lemma_int_decimal(b.0 as int);
            lemma_int_decimal(b.1 as int);
            let ya = int_decimal(a.1 as int) + seq!['_'] + int_decimal(a.2 as int);
            assert(coordinate_key(c1) =~= int_decimal(a.0 as int) + seq!['_'] + ya);
            lemma_split_first_underscore(int_decimal(a.0 as int), ya, int_decimal(b.0 as int), int_decimal(b.1 as int));
            let n = int_decimal(a.1 as int).len();
            assert(ya[n as int] == '_');
        },
    }
}

impl Coordinate {
    /// The text form of the coordinate, such as `3`, `3_-4` or `3_-4_5`.
    pub fn to_key_string(&self) -> (s: String)
        ensures
            s@ == coordinate_key(*self),
    {
        let mut s = String::new();
        match self {
            Coordinate::OneD(c) => {
                push_i64_decimal(&mut s, c.0);
            },
            Coordinate::TwoD(c) => {
                push_i64_decimal(&mut s, c.0);
                push_char(&mut s, '_');
                push_i64_decimal(&mut s, c.1);
            },
            Coordinate::ThreeD(c) => {
                push_i64_decimal(&mut s, c.0);
                push_char(&mut s, '_');
                push_i64_decimal(&mut s, c.1);
                push_char(&mut s, '_');
                push_i64_decimal(&mut s, c.2);
            },
        }
        assert(s@ =~= coordinate_key(*self));
        s
    }

    /// Whether this coordinate has as many components as `dim_type` asks.
    pub fn matches_dimension(&self, dim_type: DimensionType) -> (b: bool)
        ensures
            b == match (dim_type, *self) {
                (DimensionType::OneD, Coordinate::OneD(_)) => true,
                (DimensionType::TwoD, Coordinate::TwoD(_)) => true,
                (DimensionType::ThreeD, Coordinate::ThreeD(_)) => true,
                _ => false,
            },
    {
        match (dim_type, self) {
            (DimensionType::OneD, Coordinate::OneD(_)) => true,
            (DimensionType::TwoD, Coordinate::TwoD(_)) => true,
            (DimensionType::ThreeD, Coordinate::ThreeD(_)) => true,
            _ => false,
        }
    }
}

/// `head` followed by `tail`, as a new string.
pub fn concat_key(head: &str, tail: &str) -> (s: String)
    ensures
        s@ == head@ + tail@,
{
    let mut s = String::new();
    push_str(&mut s, head);
    push_str(&mut s, tail);
    assert(Seq::<char>::empty() + head@ + tail@ =~= head@ + tail@);
    s
}

/// The storage key of the id queue of one cell: `cell:<label>:<coordinate>`.
pub fn cell_key(label: &str, coord: &Coordinate) -> (s: String)
    ensures
        s@ == "cell:"@ + label@ + seq![':'] + coordinate_key(*coord),
{
    let mut s = String::new();
    push_str(&mut s, "cell:");
    push_str(&mut s, label);
    push_char(&mut s, ':');
    let c = coord.to_key_string();
    push_str(&mut s, c.as_str());
    assert(Seq::<char>::empty() + "cell:"@ + label@ + seq![':'] + coordinate_key(*coord)
        =~= "cell:"@ + label@ + seq![':'] + coordinate_key(*coord));
    s
}

/// The storage key of one sample: `sample:<id>`.
pub fn sample_key(id: &str) -> (s: String)
    ensures
        s@ == "sample:"@ + id@,
{
    concat_key("sample:", id)
}

/// The storage key of a dimension's metadata: `md_meta:<label>`.
pub fn dimension_meta_key(label: &str) -> (s: String)
    ensures
        s@ == "md_meta:"@ + label@,
{
    concat_key("md_meta:", label)
}

/// The key under which a dimension's label is indexed for vector search:
/// `dim_label:<label>`.
pub fn dimension_label_key(label: &str) -> (s: String)
    ensures
        s@ == "dim_label:"@ + label@,
{
    concat_key("dim_label:", label)
}

/// The prefix shared by the keys of all cells of a dimension: `cell:<label>:`.
pub fn dimension_cell_prefix(label: &str) -> (s: String)
    ensures
        s@ == "cell:"@ + label@ + seq![':'],
{
    let mut s = concat_key("cell:", label);
    push_char(&mut s, ':');
    s
}

} // verus!

use vstd::prelude::*;

verus! {


/// The map from the first components of `s` to the second ones; a later
/// pair wins over an earlier one with the same key.
pub open spec fn keyed_map<A>(s: Seq<(Seq<char>, A)>) -> Map<Seq<char>, A>
    decreases s.len(),
{
    if s.len() == 0 {
        Map::empty()
    } else {
        keyed_map(s.drop_last()).insert(s.last().0, s.last().1)
    }
}

/// No key occurs twice in `s`.
pub open spec fn unique_keys<A>(s: Seq<(Seq<char>, A)>) -> bool {
    forall|i: int, j: int| 0 <= i < j < s.len() ==> s[i].0 != s[j].0
}

/// Dropping the last pair keeps the keys unique.
pub proof fn lemma_unique_drop_last<A>(s: Seq<(Seq<char>, A)>)
    requires
        unique_keys(s),
        s.len() > 0,
    ensures
        unique_keys(s.drop_last()),
{
    assert forall|i: int, j: int| 0 <= i < j < s.drop_last().len() implies s.drop_last()[i].0 != s.drop_last()[j].0 by {
        assert(s.drop_last()[i] == s[i] && s.drop_last()[j] == s[j]);
    }
}

/// A key is in the map exactly when some pair has it.
pub proof fn lemma_keyed_dom<A>(s: Seq<(Seq<char>, A)>, k: Seq<char>)
    ensures
        keyed_map(s).contains_key(k) <==> exists|i: int| 0 <= i < s.len() && s[i].0 == k,
    decreases s.len(),
{
    if s.len() > 0 {
        lemma_keyed_dom(s.drop_last(), k);
        if keyed_map(s.drop_last()).contains_key(k) {
            let i = choose|i: int| 0 <= i < s.drop_last().len() && s.drop_last()[i].0 == k;
            assert(s[i].0 == k);
        }
        if exists|i: int| 0 <= i < s.len() && s[i].0 == k {
            let i = choose|i: int| 0 <= i < s.len() && s[i].0 == k;
            if i < s.len() - 1 {
                assert(s.drop_last()[i].0 == k);
            }
        }
    }
}

/// With unique keys, the map gives each pair's value for its key.
pub proof fn lemma_keyed_get<A>(s: Seq<(Seq<char>, A)>, i: int)
    requires
        unique_keys(s),
        0 <= i < s.len(),
    ensures
        keyed_map(s).contains_key(s[i].0),
        keyed_map(s)[s[i].0] == s[i].1,
    decreases s.len(),
{
    if i < s.len() - 1 {
        lemma_unique_drop_last(s);
        lemma_keyed_get(s.drop_last(), i);
        assert(s.drop_last()[i] == s[i]);
        assert(s[i].0 != s[s.len() - 1].0);
    }
}

/// Replacing the value of one pair replaces the value of its key.
pub proof fn lemma_keyed_update<A>(s: Seq<(Seq<char>, A)>, i: int, a: A)
    requires
        unique_keys(s),
        0 <= i < s.len(),
    ensures
        keyed_map(s.update(i, (s[i].0, a))) == keyed_map(s).insert(s[i].0, a),
    decreases s.len(),
{
    let u = s.update(i, (s[i].0, a));
    if i == s.len() - 1 {
        assert(u.drop_last() =~= s.drop_last());
        assert(keyed_map(u) =~= keyed_map(s).insert(s[i].0, a));
    } else {
        lemma_unique_drop_last(s);
        assert(u.drop_last() =~= s.drop_last().update(i, (s[i].0, a)));
        assert(s.drop_last()[i] == s[i]);
        lemma_keyed_update(s.drop_last(), i, a);
        assert(s[i].0 != s[s.len() - 1].0);
        assert(keyed_map(u) =~= keyed_map(s).insert(s[i].0, a));
    }
}

/// With unique keys, the map has as many keys as there are pairs.
pub proof fn lemma_keyed_len<A>(s: Seq<(Seq<char>, A)>)
    requires
        unique_keys(s),
    ensures
        keyed_map(s).dom().finite(),
        keyed_map(s).dom().len() == s.len(),
    decreases s.len(),
{
    if s.len() > 0 {
        lemma_unique_drop_last(s);
        lemma_keyed_len(s.drop_last());
        lemma_keyed_dom(s.drop_last(), s.last().0);
        assert(!keyed_map(s.drop_last()).contains_key(s.last().0)) by {
            if keyed_map(s.drop_last()).contains_key(s.last().0) {
                let i = choose|i: int| 0 <= i < s.drop_last().len() && s.drop_last()[i].0 == s.last().0;
                assert(s[i].0 == s[s.len() - 1].0);
            }
        }
    }
}

} // verus!

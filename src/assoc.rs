//! A small map from identifiers to values, kept as a list of pairs in which
//! a later pair for a key overrides an earlier one.
use crate::id::{compare_ids, Id};
use vstd::prelude::*;

verus! {

/// The map that a list of pairs stands for.
pub open spec fn assoc<V>(s: Seq<(Id, V)>) -> Map<Seq<u8>, V>
    decreases s.len(),
{
    if s.len() == 0 {
        Map::empty()
    } else {
        assoc(s.drop_last()).insert(s.last().0@, s.last().1)
    }
}

proof fn lemma_assoc_suffix<V>(s: Seq<(Id, V)>, i: int, k: Seq<u8>)
    requires
        0 <= i <= s.len(),
        forall|j: int| i <= j < s.len() ==> (#[trigger] s[j]).0@ != k,
    ensures
        assoc(s).contains_key(k) == assoc(s.subrange(0, i)).contains_key(k),
        assoc(s).contains_key(k) ==> assoc(s)[k] == assoc(s.subrange(0, i))[k],
    decreases s.len(),
{
    if s.len() > i {
        let d = s.drop_last();
        assert forall|j: int| i <= j < d.len() implies (#[trigger] d[j]).0@ != k by {
            assert(d[j] == s[j]);
        }
        lemma_assoc_suffix(d, i, k);
        assert(d.subrange(0, i) =~= s.subrange(0, i));
    } else {
        assert(s.subrange(0, i) =~= s);
    }
}

proof fn lemma_assoc_update<V>(s: Seq<(Id, V)>, i: int, v: (Id, V))
    requires
        0 <= i < s.len(),
        s[i].0 == v.0,
        forall|j: int| i < j < s.len() ==> (#[trigger] s[j]).0@ != v.0@,
    ensures
        assoc(s.update(i, v)) == assoc(s).insert(v.0@, v.1),
    decreases s.len(),
{
    let u = s.update(i, v);
    let d = s.drop_last();
    if i == s.len() - 1 {
        assert(u.drop_last() =~= d);
        assert(assoc(u) =~= assoc(s).insert(v.0@, v.1));
    } else {
        assert forall|j: int| i < j < d.len() implies (#[trigger] d[j]).0@ != v.0@ by {
            assert(d[j] == s[j]);
        }
        lemma_assoc_update(d, i, v);
        assert(u.drop_last() =~= d.update(i, v));
        assert(s.last().0@ != v.0@);
        assert(assoc(u) =~= assoc(s).insert(v.0@, v.1));
    }
}

/// The position of the pair that gives the value of `k`, if any.
pub fn assoc_find<V>(s: &Vec<(Id, V)>, k: &Id) -> (r: Option<usize>)
    ensures
        r is None <==> !assoc(s@).contains_key(k@),
        r matches Some(i) ==> i < s@.len() && s@[i as int].0 == *k && assoc(s@)[k@] == s@[i as int].1
            && forall|j: int| i < j < s@.len() ==> (#[trigger] s@[j]).0@ != k@,
{
    let mut i: usize = s.len();
    while i > 0
        invariant
            i <= s@.len(),
            forall|j: int| i <= j < s@.len() ==> (#[trigger] s@[j]).0@ != k@,
        decreases i,
    {
        if compare_ids(&s[i - 1].0, k) == 0 {
            proof {
                let t = s@.subrange(0, i as int);
                lemma_assoc_suffix(s@, i as int, k@);
                assert(t.drop_last() =~= s@.subrange(0, i - 1));
                assert(s@[i - 1].0 =~= *k);
            }
            return Some(i - 1);
        }
        i = i - 1;
    }
    proof {
        lemma_assoc_suffix(s@, 0, k@);
        assert(assoc(s@.subrange(0, 0)) =~= Map::empty());
    }
    None
}

/// Sets the value of `k` to `v`.
pub fn assoc_put<V>(s: &mut Vec<(Id, V)>, k: Id, v: V)
    ensures
        assoc(final(s)@) == assoc(old(s)@).insert(k@, v),
{
    match assoc_find(s, &k) {
        Some(i) => {
            proof {
                lemma_assoc_update(old(s)@, i as int, (k, v));
            }
            s.set(i, (k, v));
        },
        None => {
            s.push((k, v));
            assert(final(s)@.drop_last() =~= old(s)@);
        },
    }
}

} // verus!

//! Maps from strings, kept as lists of pairs.
use crate::util::text::str_eq;
use vstd::prelude::*;

verus! {

/// What a list of pairs gives for a name: what its first pair holds.
pub open spec fn lookup<V: View>(pairs: Seq<(String, V)>, name: Seq<char>) -> Option<V::V>
    decreases pairs.len(),
{
    if pairs.len() == 0 {
        None
    } else if pairs[0].0@ == name {
        Some(pairs[0].1@)
    } else {
        lookup(pairs.skip(1), name)
    }
}

/// What a map gives for a name.
pub open spec fn entry<T>(map: Map<Seq<char>, T>, name: Seq<char>) -> Option<T> {
    if map.contains_key(name) {
        Some(map[name])
    } else {
        None
    }
}

/// The map that a list of pairs stands for.
pub open spec fn pairs_map<V: View>(pairs: Seq<(String, V)>) -> Map<Seq<char>, V::V> {
    Map::new(
        |name: Seq<char>| lookup(pairs, name) is Some,
        |name: Seq<char>| lookup(pairs, name)->Some_0,
    )
}

/// Pairs in front that have other names do not matter.
proof fn lemma_lookup_skip<V: View>(pairs: Seq<(String, V)>, name: Seq<char>, n: int)
    requires
        0 <= n <= pairs.len(),
        forall|i: int| 0 <= i < n ==> (#[trigger] pairs[i]).0@ != name,
    ensures
        lookup(pairs, name) == lookup(pairs.skip(n), name),
    decreases n,
{
    if n > 0 {
        let tail = pairs.skip(1);
        assert forall|i: int| 0 <= i < n - 1 implies (#[trigger] tail[i]).0@ != name by {
            assert(tail[i] == pairs[i + 1]);
        }
        lemma_lookup_skip(tail, name, n - 1);
        assert(tail.skip(n - 1) =~= pairs.skip(n));
    } else {
        assert(pairs.skip(0) =~= pairs);
    }
}

/// Changing what a pair holds changes what is found for its name only.
proof fn lemma_lookup_update<V: View>(
    pairs: Seq<(String, V)>,
    k: int,
    changed: (String, V),
    name: Seq<char>,
)
    requires
        0 <= k < pairs.len(),
        pairs[k].0@ == changed.0@,
        forall|i: int| 0 <= i < k ==> (#[trigger] pairs[i]).0@ != changed.0@,
    ensures
        lookup(pairs.update(k, changed), name) == (if name == changed.0@ {
            Some(changed.1@)
        } else {
            lookup(pairs, name)
        }),
    decreases k,
{
    let after = pairs.update(k, changed);
    if k == 0 {
        assert(after.skip(1) =~= pairs.skip(1));
    } else {
        let tail = pairs.skip(1);
        assert forall|i: int| 0 <= i < k - 1 implies (#[trigger] tail[i]).0@ != changed.0@ by {
            assert(tail[i] == pairs[i + 1]);
        }
        lemma_lookup_update(tail, k - 1, changed, name);
        assert(after.skip(1) =~= tail.update(k - 1, changed));
        assert(pairs[0].0@ != changed.0@);
    }
}

/// A pair at the end is found where no other pair has its name.
proof fn lemma_lookup_push<V: View>(
    pairs: Seq<(String, V)>,
    added: (String, V),
    name: Seq<char>,
)
    requires
        forall|i: int| 0 <= i < pairs.len() ==> (#[trigger] pairs[i]).0@ != added.0@,
    ensures
        lookup(pairs.push(added), name) == (if name == added.0@ {
            Some(added.1@)
        } else {
            lookup(pairs, name)
        }),
    decreases pairs.len(),
{
    let after = pairs.push(added);
    if pairs.len() == 0 {
        assert(after.skip(1) =~= Seq::empty());
        assert(lookup(after.skip(1), name) is None);
    } else {
        let tail = pairs.skip(1);
        assert forall|i: int| 0 <= i < tail.len() implies (#[trigger] tail[i]).0@ != added.0@ by {
            assert(tail[i] == pairs[i + 1]);
        }
        lemma_lookup_push(tail, added, name);
        assert(after.skip(1) =~= tail.push(added));
        assert(pairs[0].0@ != added.0@);
    }
}

/// What there is for a name.
pub fn get<'a, V: View>(pairs: &'a [(String, V)], name: &str) -> (r: Option<&'a V>)
    ensures
        match r {
            Some(value) => lookup(pairs@, name@) == Some(value@),
            None => lookup(pairs@, name@) is None,
        },
{
    let mut i: usize = 0;
    while i < pairs.len()
        invariant
            i <= pairs@.len(),
            forall|j: int| 0 <= j < i ==> (#[trigger] pairs@[j]).0@ != name@,
        decreases pairs@.len() - i,
    {
        if str_eq(pairs[i].0.as_str(), name) {
            proof {
                lemma_lookup_skip(pairs@, name@, i as int);
            }
            return Some(&pairs[i].1);
        }
        i += 1;
    }
    proof {
        lemma_lookup_skip(pairs@, name@, i as int);
    }
    None
}

/// Sets what there is for a name, and gives what there was.
pub fn insert<V: View>(pairs: &mut Vec<(String, V)>, name: &str, value: V) -> (r: Option<V>)
    ensures
        pairs_map(final(pairs)@) == pairs_map(old(pairs)@).insert(name@, value@),
        match r {
            Some(had) => entry(pairs_map(old(pairs)@), name@) == Some(had@),
            None => entry(pairs_map(old(pairs)@), name@) is None,
        },
{
    let ghost before = pairs@;
    let mut i: usize = 0;
    while i < pairs.len()
        invariant
            i <= pairs@.len(),
            pairs@ == before,
            before == old(pairs)@,
            forall|j: int| 0 <= j < i ==> (#[trigger] before[j]).0@ != name@,
        decreases pairs@.len() - i,
    {
        if str_eq(pairs[i].0.as_str(), name) {
            proof {
                lemma_lookup_skip(before, name@, i as int);
            }
            let mut had = value;
            let ghost value_view = had@;
            std::mem::swap(&mut pairs[i].1, &mut had);
            proof {
                let changed = pairs@[i as int];
                assert(pairs@ =~= before.update(i as int, changed));
                assert forall|other: Seq<char>| lookup(pairs@, other) == (if other == name@ {
                    Some(value_view)
                } else {
                    lookup(before, other)
                }) by {
                    lemma_lookup_update(before, i as int, changed, other);
                }
                assert(pairs_map(pairs@) =~= pairs_map(before).insert(name@, value_view));
            }
            return Some(had);
        }
        i += 1;
    }
    proof {
        lemma_lookup_skip(before, name@, i as int);
    }
    let ghost value_view = value@;
    pairs.push((name.to_owned(), value));
    proof {
        let added = pairs@.last();
        assert(pairs@ =~= before.push(added));
        assert forall|other: Seq<char>| lookup(pairs@, other) == (if other == name@ {
            Some(value_view)
        } else {
            lookup(before, other)
        }) by {
            lemma_lookup_push(before, added, other);
        }
        assert(pairs_map(pairs@) =~= pairs_map(before).insert(name@, value_view));
    }
    None
}

/// A copy of a list of pairs.
pub fn copy(pairs: &[(String, String)]) -> (r: Vec<(String, String)>)
    ensures
        r@ == pairs@,
{
    let mut out: Vec<(String, String)> = Vec::new();
    let mut i: usize = 0;
    while i < pairs.len()
        invariant
            i <= pairs@.len(),
            out@ == pairs@.take(i as int),
        decreases pairs@.len() - i,
    {
        out.push((pairs[i].0.clone(), pairs[i].1.clone()));
        i += 1;
        proof {
            assert(pairs@.take(i as int) =~= pairs@.take(i - 1).push(pairs@[i - 1]));
        }
    }
    proof {
        assert(pairs@.take(i as int) =~= pairs@);
    }
    out
}

/// A list of pairs gives for a name what its first pair of that name holds,
/// and nothing where it has none.
pub proof fn law_first_pair_counts<V: View>(pairs: Seq<(String, V)>, name: Seq<char>, n: int)
    requires
        0 <= n <= pairs.len(),
        forall|i: int| 0 <= i < n ==> (#[trigger] pairs[i]).0@ != name,
    ensures
        n < pairs.len() && pairs[n].0@ == name ==> entry(pairs_map(pairs), name) == Some(
            pairs[n].1@,
        ) && lookup(pairs, name) == Some(pairs[n].1@),
        n == pairs.len() ==> entry(pairs_map(pairs), name) is None && lookup(pairs, name) is None,
{
    lemma_lookup_skip(pairs, name, n);
    if n < pairs.len() {
        assert(pairs.skip(n)[0] == pairs[n]);
    }
}

} // verus!

//! Small verified helpers over the standard hash collections.

use std::collections::HashMap;
use std::collections::HashSet;
use vstd::prelude::*;
use vstd::std_specs::hash::*;
use vstd::std_specs::iter::IteratorSpec;

verus! {

broadcast use group_hash_axioms;

/// The keys of `m`, each exactly once, in the order the map hands them out.
pub fn key_list<V>(m: &HashMap<usize, V>) -> (keys: Vec<usize>)
    ensures
        keys@.no_duplicates(),
        keys@.to_set() == m@.dom(),
{
    let mut keys: Vec<usize> = Vec::new();
    for k in it: m.keys()
        invariant
            keys@.len() == it.index(),
            forall|i: int| 0 <= i < keys@.len() ==> keys@[i] == *it.seq()[i],
            it.seq() == spec_keys_iter(m).remaining(),
    {
        keys.push(*k);
    }
    assert(keys@ =~= spec_keys_iter(m).remaining().unref());
    keys
}

/// The members of `s`, each exactly once, in the order the set hands them out.
pub fn member_list(s: &HashSet<usize>) -> (members: Vec<usize>)
    ensures
        members@.no_duplicates(),
        members@.to_set() == s@,
{
    let mut members: Vec<usize> = Vec::new();
    for k in it: s.iter()
        invariant
            members@.len() == it.index(),
            forall|i: int| 0 <= i < members@.len() ==> members@[i] == *it.seq()[i],
            it.seq() == spec_hash_keys_iter(s).remaining(),
    {
        members.push(*k);
    }
    assert(members@ =~= spec_hash_keys_iter(s).remaining().unref());
    members
}

/// Adds every member of `src` to `acc`.
pub fn union_into(acc: &mut HashSet<usize>, src: &HashSet<usize>)
    ensures
        final(acc)@ == old(acc)@.union(src@),
{
    let members = member_list(src);
    let mut i: usize = 0;
    while i < members.len()
        invariant
            i <= members.len(),
            members@.to_set() == src@,
            forall|x: usize|
                acc@.contains(x) <==> old(acc)@.contains(x) || exists|j: int|
                    0 <= j < i && #[trigger] members@[j] == x,
        decreases members.len() - i,
    {
        acc.insert(members[i]);
        i += 1;
    }
    proof {
        assert forall|x: usize| acc@.contains(x) <==> old(acc)@.union(src@).contains(x) by {
            if src@.contains(x) {
                assert(members@.to_set().contains(x));
                assert(members@.contains(x));
            }
            if exists|j: int| 0 <= j < members@.len() && #[trigger] members@[j] == x {
                assert(members@.contains(x));
                assert(members@.to_set().contains(x));
            }
        }
        assert(acc@ =~= old(acc)@.union(src@));
    }
}

/// A set with the members of `src`.
pub fn copy_set(src: &HashSet<usize>) -> (copy: HashSet<usize>)
    ensures
        copy@ == src@,
{
    let mut copy: HashSet<usize> = HashSet::new();
    union_into(&mut copy, src);
    assert(copy@ =~= src@);
    copy
}

/// Each item is smaller than every item after it.
pub open spec fn ascending(s: Seq<usize>) -> bool {
    forall|i: int, j: int| 0 <= i < j < s.len() ==> s[i] < s[j]
}

/// The items of `items` in ascending order, each once.
pub fn sorted_once(items: &Vec<usize>) -> (sorted: Vec<usize>)
    ensures
        ascending(sorted@),
        sorted@.to_set() == items@.to_set(),
{
    let mut out: Vec<usize> = Vec::new();
    let mut i: usize = 0;
    while i < items.len()
        invariant
            i <= items.len(),
            ascending(out@),
            forall|y: usize|
                out@.contains(y) <==> exists|j: int| 0 <= j < i && #[trigger] items@[j] == y,
        decreases items.len() - i,
    {
        let x = items[i];
        let mut p: usize = 0;
        while p < out.len() && out[p] < x
            invariant
                p <= out.len(),
                forall|q: int| 0 <= q < p ==> out@[q] < x,
            decreases out.len() - p,
        {
            p += 1;
        }
        let ghost before = out@;
        if p == out.len() || out[p] != x {
            out.insert(p, x);
            proof {
                assert forall|a: int, b: int| 0 <= a < b < out@.len() implies out@[a] < out@[b] by {
                    if b < p {
                        assert(out@[a] == before[a] && out@[b] == before[b]);
                    } else if b == p {
                        assert(out@[a] == before[a]);
                    } else if a < p {
                        assert(out@[a] == before[a] && out@[b] == before[b - 1]);
                    } else if a == p {
                        assert(out@[b] == before[b - 1]);
                        assert(before[p as int] <= before[b - 1]);
                    } else {
                        assert(out@[a] == before[a - 1] && out@[b] == before[b - 1]);
                    }
                }
                assert forall|y: usize| out@.contains(y) <==> before.contains(y) || y == x by {
                    if out@.contains(y) {
                        let k = choose|k: int| 0 <= k < out@.len() && out@[k] == y;
                        if k < p {
                            assert(before[k] == y);
                        } else if k > p {
                            assert(before[k - 1] == y);
                        }
                    }
                    if before.contains(y) {
                        let k = choose|k: int| 0 <= k < before.len() && before[k] == y;
                        if k < p {
                            assert(out@[k] == y);
                        } else {
                            assert(out@[k + 1] == y);
                        }
                    }
                    if y == x {
                        assert(out@[p as int] == y);
                    }
                }
            }
        } else {
            assert(before[p as int] == x);
            assert(before.contains(x));
        }
        proof {
            assert forall|y: usize|
                out@.contains(y) <==> exists|j: int| 0 <= j < i + 1 && #[trigger] items@[j] == y by {
                if exists|j: int| 0 <= j < i + 1 && #[trigger] items@[j] == y {
                    let j = choose|j: int| 0 <= j < i + 1 && #[trigger] items@[j] == y;
                    if j < i {
                        assert(before.contains(y));
                    }
                }
                if before.contains(y) {
                    let j = choose|j: int| 0 <= j < i && #[trigger] items@[j] == y;
                    assert(0 <= j < i + 1 && items@[j] == y);
                }
                if y == x {
                    assert(0 <= i < i + 1 && items@[i as int] == y);
                }
            }
        }
        i += 1;
    }
    proof {
        assert forall|y: usize| out@.to_set().contains(y) <==> items@.to_set().contains(y) by {
            if items@.contains(y) {
                let j = choose|j: int| 0 <= j < items@.len() && items@[j] == y;
                assert(0 <= j < i && items@[j] == y);
            }
            if out@.contains(y) {
                let j = choose|j: int| 0 <= j < i && #[trigger] items@[j] == y;
                assert(items@.contains(y));
            }
        }
        assert(out@.to_set() =~= items@.to_set());
    }
    out
}

} // verus!

//! Entity identifiers, listed in ascending order.
//!
//! The world keeps its entities in hash maps keyed by id. Every pass over
//! such a map walks the ids in ascending order, so that the outcome of a
//! tick is a function of the world alone.
use std::collections::HashMap;
use vstd::prelude::*;
use vstd::std_specs::iter::IteratorSpec;

verus! {

/// The sequence is strictly increasing.
pub open spec fn ascending(s: Seq<u32>) -> bool {
    forall|i: int, j: int| 0 <= i < j < s.len() ==> s[i] < s[j]
}

/// `s` lists exactly the members of `d`, in ascending order.
pub open spec fn lists(s: Seq<u32>, d: Set<u32>) -> bool {
    ascending(s) && s.to_set() == d
}

/// The members of a set of ids in ascending order; see
/// [`lemma_ascending_ids_lists`].
pub open spec fn ascending_ids(d: Set<u32>) -> Seq<u32> {
    choose|s: Seq<u32>| lists(s, d)
}

/// Two ascending sequences with the same members are the same sequence.
pub proof fn lemma_ascending_unique(a: Seq<u32>, b: Seq<u32>)
    requires
        ascending(a),
        ascending(b),
        a.to_set() == b.to_set(),
    ensures
        a == b,
    decreases a.len(),
{
    if a.len() == 0 {
        if b.len() > 0 {
            assert(b.to_set().contains(b[0]));
            assert(a.to_set().contains(b[0]));
        }
        assert(a =~= b);
    } else {
        let la = a.last();
        assert(a.to_set().contains(la));
        assert(b.to_set().contains(la));
        assert(b.len() > 0);
        let lb = b.last();
        assert(b.to_set().contains(lb));
        assert(a.to_set().contains(lb));
        // each last element is the maximum of the common set
        let ia = choose|i: int| 0 <= i < b.len() && b[i] == la;
        let ib = choose|i: int| 0 <= i < a.len() && a[i] == lb;
        assert(la <= lb);
        assert(lb <= la);
        let a0 = a.drop_last();
        let b0 = b.drop_last();
        assert(ascending(a0));
        assert(ascending(b0));
        assert forall|x: u32| a0.to_set().contains(x) <==> b0.to_set().contains(x) by {
            if a0.to_set().contains(x) {
                let i = choose|i: int| 0 <= i < a0.len() && a0[i] == x;
                assert(a[i] == x);
                assert(x < la);
                assert(a.to_set().contains(x));
                assert(b.to_set().contains(x));
                let j = choose|j: int| 0 <= j < b.len() && b[j] == x;
                assert(j < b.len() - 1);
                assert(b0[j] == x);
            }
            if b0.to_set().contains(x) {
                let i = choose|i: int| 0 <= i < b0.len() && b0[i] == x;
                assert(b[i] == x);
                assert(x < lb);
                assert(b.to_set().contains(x));
                assert(a.to_set().contains(x));
                let j = choose|j: int| 0 <= j < a.len() && a[j] == x;
                assert(j < a.len() - 1);
                assert(a0[j] == x);
            }
        }
        assert(a0.to_set() =~= b0.to_set());
        lemma_ascending_unique(a0, b0);
        assert(a =~= a0.push(la));
        assert(b =~= b0.push(lb));
    }
}

/// An ascending listing of a set is its `ascending_ids`.
pub proof fn lemma_listing_is_ascending_ids(s: Seq<u32>, d: Set<u32>)
    requires
        lists(s, d),
    ensures
        ascending_ids(d) == s,
{
    let c = ascending_ids(d);
    assert(lists(c, d));
    lemma_ascending_unique(c, s);
}

/// An ascending sequence holds no id twice.
pub proof fn lemma_ascending_no_duplicates(s: Seq<u32>)
    requires
        ascending(s),
    ensures
        s.no_duplicates(),
{
    assert forall|i: int, j: int| 0 <= i < s.len() && 0 <= j < s.len() && i != j implies s[i]
        != s[j] by {
        if i < j {
            assert(s[i] < s[j]);
        } else {
            assert(s[j] < s[i]);
        }
    }
}

/// Puts `k` at its place in an ascending vector that does not hold it yet.
fn insert_ascending(v: &mut Vec<u32>, k: u32)
    requires
        ascending(old(v)@),
        !old(v)@.contains(k),
    ensures
        ascending(final(v)@),
        final(v)@.to_set() == old(v)@.to_set().insert(k),
        final(v)@.len() == old(v)@.len() + 1,
{
    let mut i: usize = 0;
    while i < v.len() && v[i] < k
        invariant
            i <= v.len(),
            v@ == old(v)@,
            forall|j: int| 0 <= j < i ==> v@[j] < k,
        decreases v.len() - i,
    {
        i += 1;
    }
    proof {
        if i < v@.len() {
            assert(v@[i as int] >= k);
            assert(v@.contains(v@[i as int]));
            assert(v@[i as int] != k);
        }
    }
    let ghost before = v@;
    v.insert(i, k);
    proof {
        let after = v@;
        assert(after == before.insert(i as int, k));
        assert forall|a: int, b: int| 0 <= a < b < after.len() implies after[a] < after[b] by {
            if b < i {
                assert(after[a] == before[a] && after[b] == before[b]);
            } else if b == i {
                assert(after[a] == before[a]);
            } else if a < i {
                assert(after[a] == before[a] && after[b] == before[b - 1]);
                assert(before[b - 1] >= before[i as int]);
            } else if a == i {
                assert(after[b] == before[b - 1]);
                assert(before[b - 1] >= before[i as int]);
            } else {
                assert(after[a] == before[a - 1] && after[b] == before[b - 1]);
            }
        }
        assert forall|x: u32| after.to_set().contains(x) <==> before.to_set().insert(k).contains(
            x,
        ) by {
            if after.to_set().contains(x) {
                let j = choose|j: int| 0 <= j < after.len() && after[j] == x;
                if j < i {
                    assert(before[j] == x);
                } else if j > i {
                    assert(before[j - 1] == x);
                }
            }
            if before.to_set().contains(x) {
                let j = choose|j: int| 0 <= j < before.len() && before[j] == x;
                if j < i {
                    assert(after[j] == x);
                } else {
                    assert(after[j + 1] == x);
                }
            }
            if x == k {
                assert(after[i as int] == k);
            }
        }
        assert(after.to_set() =~= before.to_set().insert(k));
    }
}

/// Sorts a list of distinct ids.
fn sort_distinct(keys: &Vec<u32>) -> (v: Vec<u32>)
    requires
        keys@.no_duplicates(),
    ensures
        lists(v@, keys@.to_set()),
        v@.len() == keys@.len(),
{
    let mut v: Vec<u32> = Vec::new();
    let mut i: usize = 0;
    while i < keys.len()
        invariant
            i <= keys.len(),
            keys@.no_duplicates(),
            ascending(v@),
            v@.to_set() == keys@.take(i as int).to_set(),
            v@.len() == i,
        decreases keys.len() - i,
    {
        let k = keys[i];
        proof {
            if v@.contains(k) {
                assert(v@.to_set().contains(k));
                assert(keys@.take(i as int).to_set().contains(k));
                let j = choose|j: int|
                    0 <= j < keys@.take(i as int).len() && keys@.take(i as int)[j] == k;
                assert(keys@[j] == keys@[i as int]);
            }
            assert(keys@.take(i + 1) =~= keys@.take(i as int).push(k));
            assert(keys@.take(i as int).push(k).to_set() =~= keys@.take(i as int).to_set().insert(
                k,
            )) by {
                let t = keys@.take(i as int);
                assert forall|x: u32| t.push(k).to_set().contains(x) <==> t.to_set().insert(
                    k,
                ).contains(x) by {
                    if t.push(k).to_set().contains(x) {
                        let j = choose|j: int| 0 <= j < t.push(k).len() && t.push(k)[j] == x;
                        if j < t.len() {
                            assert(t[j] == x);
                        }
                    }
                    if t.to_set().contains(x) {
                        let j = choose|j: int| 0 <= j < t.len() && t[j] == x;
                        assert(t.push(k)[j] == x);
                    }
                    if x == k {
                        assert(t.push(k)[t.len() as int] == k);
                    }
                }
            }
        }
        insert_ascending(&mut v, k);
        i += 1;
    }
    assert(keys@.take(keys@.len() as int) =~= keys@);
    v
}

/// The keys of a map, in ascending order.
pub fn sorted_keys<V>(m: &HashMap<u32, V>) -> (v: Vec<u32>)
    ensures
        lists(v@, m@.dom()),
        v@ == ascending_ids(m@.dom()),
        v@.len() == m@.dom().len(),
{
    broadcast use vstd::std_specs::hash::group_hash_axioms;

    let mut keys: Vec<u32> = Vec::new();
    for k in it: m.keys()
        invariant
            it.seq() == m.keys().remaining(),
            keys@ == it.seq().unref().take(it.index()),
    {
        keys.push(*k);
    }
    assert(keys@ == m.keys().remaining().unref());
    assert(keys@.no_duplicates()) by {
        let r = m.keys().remaining();
        assert forall|i: int, j: int|
            0 <= i < keys@.len() && 0 <= j < keys@.len() && i != j implies keys@[i] != keys@[j] by {
            assert(r[i] != r[j]);
        }
    }
    let v = sort_distinct(&keys);
    proof {
        lemma_listing_is_ascending_ids(v@, m@.dom());
    }
    v
}

/// The members of `d` below `n`, in ascending order.
pub open spec fn listing_below(d: Set<u32>, n: nat) -> Seq<u32>
    decreases n,
{
    if n == 0 {
        Seq::empty()
    } else if n - 1 <= u32::MAX && d.contains((n - 1) as u32) {
        listing_below(d, (n - 1) as nat).push((n - 1) as u32)
    } else {
        listing_below(d, (n - 1) as nat)
    }
}

proof fn lemma_listing_below(d: Set<u32>, n: nat)
    ensures
        ascending(listing_below(d, n)),
        forall|x: u32| #[trigger] listing_below(d, n).contains(x) <==> d.contains(x) && x < n,
    decreases n,
{
    if n > 0 {
        lemma_listing_below(d, (n - 1) as nat);
        let rest = listing_below(d, (n - 1) as nat);
        if n - 1 <= u32::MAX && d.contains((n - 1) as u32) {
            let top = (n - 1) as u32;
            let all = rest.push(top);
            assert forall|i: int, j: int| 0 <= i < j < all.len() implies all[i] < all[j] by {
                assert(rest[i] == all[i]);
                if j < rest.len() {
                    assert(rest[j] == all[j]);
                    assert(rest[i] < rest[j]);
                } else {
                    let x = rest[i];
                    assert(rest.contains(x));
                    assert(listing_below(d, (n - 1) as nat).contains(x));
                    assert(d.contains(x) && x < n - 1);
                    assert(all[j] == top);
                }
            }
            assert forall|x: u32| all.contains(x) <==> d.contains(x) && x < n by {
                if all.contains(x) {
                    let i = choose|i: int| 0 <= i < all.len() && all[i] == x;
                    if i < rest.len() {
                        assert(rest.contains(x));
                    }
                }
                if d.contains(x) && x < n {
                    if x == top {
                        assert(all[rest.len() as int] == x);
                    } else {
                        assert(rest.contains(x));
                        let i = choose|i: int| 0 <= i < rest.len() && rest[i] == x;
                        assert(all[i] == x);
                    }
                }
            }
        }
    }
}

/// Every set of ids has its ascending listing.
pub proof fn lemma_ascending_ids_lists(d: Set<u32>)
    ensures
        lists(ascending_ids(d), d),
        forall|x: u32| ascending_ids(d).contains(x) <==> d.contains(x),
{
    let all = listing_below(d, 0x1_0000_0000);
    lemma_listing_below(d, 0x1_0000_0000);
    assert(all.to_set() =~= d);
    assert(lists(all, d));
    assert forall|x: u32| ascending_ids(d).contains(x) <==> d.contains(x) by {
        assert(ascending_ids(d).to_set().contains(x) <==> d.contains(x));
    }
}

/// The first `i + 1` ids of a list are its first `i` ids and the id at `i`.
pub proof fn lemma_take_next(s: Seq<u32>, i: int)
    requires
        0 <= i < s.len(),
    ensures
        s.take(i + 1) == s.take(i).push(s[i]),
        forall|x: u32| s.take(i + 1).contains(x) <==> s.take(i).contains(x) || x == s[i],
        i + 1 == s.len() ==> s.take(i + 1) == s,
        !s.take(0).contains(s[i]),
        ascending(s) ==> forall|x: u32| s.take(i).contains(x) ==> x < s[i],
{
    let t = s.take(i);
    let t1 = s.take(i + 1);
    assert(t1 =~= t.push(s[i]));
    assert forall|x: u32| t1.contains(x) <==> t.contains(x) || x == s[i] by {
        if t1.contains(x) {
            let j = choose|j: int| 0 <= j < t1.len() && t1[j] == x;
            if j < i {
                assert(t[j] == x);
            }
        }
        if t.contains(x) {
            let j = choose|j: int| 0 <= j < t.len() && t[j] == x;
            assert(t1[j] == x);
        }
        if x == s[i] {
            assert(t1[i] == x);
        }
    }
    if i + 1 == s.len() {
        assert(t1 =~= s);
    }
    if ascending(s) {
        assert forall|x: u32| t.contains(x) implies x < s[i] by {
            let j = choose|j: int| 0 <= j < t.len() && t[j] == x;
            assert(s[j] < s[i]);
        }
    }
}

} // verus!

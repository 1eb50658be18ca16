//! Ordered enumeration of the keys of maps keyed by player ids.

use std::collections::BTreeMap;
use vstd::prelude::*;
use vstd::std_specs::btree::{increasing_seq, spec_keys_iter};
use vstd::std_specs::iter::IteratorSpec;
use vstd::std_specs::cmp::OrdSpec;

verus! {

broadcast use vstd::std_specs::btree::group_btree_axioms;

/// A strictly increasing sequence.
pub open spec fn strictly_increasing(s: Seq<u64>) -> bool {
    forall|i: int, j: int| 0 <= i < j < s.len() ==> s[i] < s[j]
}

/// The keys of a finite map in increasing order.
pub open spec fn key_seq<V>(m: Map<u64, V>) -> Seq<u64> {
    choose|s: Seq<u64>| strictly_increasing(s) && s.to_set() == m.dom()
}

proof fn lemma_increasing_keys(ks: Seq<&u64>)
    requires
        increasing_seq(ks),
    ensures
        forall|i: int, j: int| 0 <= i < j < ks.len() ==> *ks[i] < *ks[j],
{
    broadcast use vstd::laws_cmp::group_laws_cmp, vstd::laws_cmp::lemma_ref_obeys_cmp_spec;

    assert(vstd::laws_cmp::obeys_cmp::<u64>());
    assert(vstd::laws_cmp::obeys_cmp::<&u64>());
    vstd::std_specs::btree::axiom_increasing_seq_meaning::<&u64>(ks);
    assert forall|i: int, j: int| 0 <= i < j < ks.len() implies *ks[i] < *ks[j] by {
        assert(OrdSpec::cmp_spec(&ks[i], &ks[j]) is Less);
    }
}

/// Two strictly increasing sequences with the same elements are equal.
pub proof fn lemma_increasing_unique(a: Seq<u64>, b: Seq<u64>)
    requires
        strictly_increasing(a),
        strictly_increasing(b),
        a.to_set() == b.to_set(),
    ensures
        a == b,
    decreases a.len(),
{
    broadcast use vstd::seq_lib::group_seq_properties;

    if a.len() == 0 {
        if b.len() > 0 {
            assert(b.to_set().contains(b[0]));
        }
    } else {
        assert(a.to_set().contains(a[0]));
        assert(b.to_set().contains(a[0]));
        assert(b.len() > 0);
        assert(a.to_set().contains(b[0]));
        let i = choose|i: int| 0 <= i < a.len() && a[i] == b[0];
        let j = choose|j: int| 0 <= j < b.len() && b[j] == a[0];
        assert(a[0] == b[0]) by {
            if i > 0 {
                assert(a[0] < a[i]);
            }
            if j > 0 {
                assert(b[0] < b[j]);
            }
        }
        let a1 = a.drop_first();
        let b1 = b.drop_first();
        assert(a1.to_set() =~= b1.to_set()) by {
            assert forall|x: u64| a1.to_set().contains(x) implies b1.to_set().contains(x) by {
                let k = choose|k: int| 0 <= k < a1.len() && a1[k] == x;
                assert(a[k + 1] == x);
                assert(b.to_set().contains(x));
                let l = choose|l: int| 0 <= l < b.len() && b[l] == x;
                if l == 0 {
                    assert(a[0] < a[k + 1]);
                }
                assert(b1[l - 1] == x);
            }
            assert forall|x: u64| b1.to_set().contains(x) implies a1.to_set().contains(x) by {
                let k = choose|k: int| 0 <= k < b1.len() && b1[k] == x;
                assert(b[k + 1] == x);
                assert(a.to_set().contains(x));
                let l = choose|l: int| 0 <= l < a.len() && a[l] == x;
                if l == 0 {
                    assert(b[0] < b[k + 1]);
                }
                assert(a1[l - 1] == x);
            }
        }
        lemma_increasing_unique(a1, b1);
        assert(a =~= b) by {
            assert forall|k: int| 0 <= k < a.len() implies a[k] == b[k] by {
                if k > 0 {
                    assert(a[k] == a1[k - 1]);
                    assert(b[k] == b1[k - 1]);
                }
            }
        }
    }
}

/// A strictly increasing enumeration of a map's keys is `key_seq`.
pub proof fn lemma_key_seq<V>(m: Map<u64, V>, s: Seq<u64>)
    requires
        strictly_increasing(s),
        s.to_set() == m.dom(),
    ensures
        key_seq(m) == s,
{
    let k = key_seq(m);
    assert(strictly_increasing(k) && k.to_set() == m.dom());
    lemma_increasing_unique(k, s);
}

/// The keys of the map in increasing order.
pub fn sorted_keys<V>(m: &BTreeMap<u64, V>) -> (r: Vec<u64>)
    ensures
        r@ == key_seq(m@),
        strictly_increasing(r@),
        r@.to_set() == m@.dom(),
{
    let mut res: Vec<u64> = Vec::new();
    let ghost ks = spec_keys_iter(m).remaining();
    for k in it: m.keys()
        invariant
            it.seq() == ks,
            res@ == ks.take(it.index() as int).map_values(|x: &u64| *x),
    {
        res.push(*k);
        assert(ks.take(it.index() + 1).map_values(|x: &u64| *x) =~= ks.take(
            it.index() as int,
        ).map_values(|x: &u64| *x).push(*k));
    }
    proof {
        assert(res@ =~= ks.unref());
        assert(ks.unref().to_set() == m@.dom());
        assert(increasing_seq(ks));
        lemma_increasing_keys(ks);
        lemma_key_seq(m@, res@);
    }
    res
}

/// A strictly increasing sequence of indexes.
pub open spec fn strictly_increasing_ix(s: Seq<usize>) -> bool {
    forall|i: int, j: int| 0 <= i < j < s.len() ==> s[i] < s[j]
}

/// The keys of a finite map in increasing order.
pub open spec fn index_key_seq<V>(m: Map<usize, V>) -> Seq<usize> {
    choose|s: Seq<usize>| strictly_increasing_ix(s) && s.to_set() == m.dom()
}

proof fn lemma_increasing_index_keys(ks: Seq<&usize>)
    requires
        increasing_seq(ks),
    ensures
        forall|i: int, j: int| 0 <= i < j < ks.len() ==> *ks[i] < *ks[j],
{
    broadcast use vstd::laws_cmp::group_laws_cmp, vstd::laws_cmp::lemma_ref_obeys_cmp_spec;

    assert(vstd::laws_cmp::obeys_cmp::<usize>());
    assert(vstd::laws_cmp::obeys_cmp::<&usize>());
    vstd::std_specs::btree::axiom_increasing_seq_meaning::<&usize>(ks);
    assert forall|i: int, j: int| 0 <= i < j < ks.len() implies *ks[i] < *ks[j] by {
        assert(OrdSpec::cmp_spec(&ks[i], &ks[j]) is Less);
    }
}

/// Two strictly increasing sequences with the same elements are equal.
pub proof fn lemma_increasing_unique_ix(a: Seq<usize>, b: Seq<usize>)
    requires
        strictly_increasing_ix(a),
        strictly_increasing_ix(b),
        a.to_set() == b.to_set(),
    ensures
        a == b,
    decreases a.len(),
{
    broadcast use vstd::seq_lib::group_seq_properties;

    if a.len() == 0 {
        if b.len() > 0 {
            assert(b.to_set().contains(b[0]));
        }
    } else {
        assert(a.to_set().contains(a[0]));
        assert(b.to_set().contains(a[0]));
        assert(b.len() > 0);
        assert(a.to_set().contains(b[0]));
        let i = choose|i: int| 0 <= i < a.len() && a[i] == b[0];
        let j = choose|j: int| 0 <= j < b.len() && b[j] == a[0];
        assert(a[0] == b[0]) by {
            if i > 0 {
                assert(a[0] < a[i]);
            }
            if j > 0 {
                assert(b[0] < b[j]);
            }
        }
        let a1 = a.drop_first();
        let b1 = b.drop_first();
        assert(a1.to_set() =~= b1.to_set()) by {
            assert forall|x: usize| a1.to_set().contains(x) implies b1.to_set().contains(x) by {
                let k = choose|k: int| 0 <= k < a1.len() && a1[k] == x;
                assert(a[k + 1] == x);
                assert(b.to_set().contains(x));
                let l = choose|l: int| 0 <= l < b.len() && b[l] == x;
                if l == 0 {
                    assert(a[0] < a[k + 1]);
                }
                assert(b1[l - 1] == x);
            }
            assert forall|x: usize| b1.to_set().contains(x) implies a1.to_set().contains(x) by {
                let k = choose|k: int| 0 <= k < b1.len() && b1[k] == x;
                assert(b[k + 1] == x);
                assert(a.to_set().contains(x));
                let l = choose|l: int| 0 <= l < a.len() && a[l] == x;
                if l == 0 {
                    assert(b[0] < b[k + 1]);
                }
                assert(a1[l - 1] == x);
            }
        }
        lemma_increasing_unique_ix(a1, b1);
        assert(a =~= b) by {
            assert forall|k: int| 0 <= k < a.len() implies a[k] == b[k] by {
                if k > 0 {
                    assert(a[k] == a1[k - 1]);
                    assert(b[k] == b1[k - 1]);
                }
            }
        }
    }
}

/// A strictly increasing enumeration of a map's keys is `index_key_seq`.
pub proof fn lemma_index_key_seq<V>(m: Map<usize, V>, s: Seq<usize>)
    requires
        strictly_increasing_ix(s),
        s.to_set() == m.dom(),
    ensures
        index_key_seq(m) == s,
{
    let k = index_key_seq(m);
    assert(strictly_increasing_ix(k) && k.to_set() == m.dom());
    lemma_increasing_unique_ix(k, s);
}

/// The keys of the map in increasing order.
pub fn sorted_index_keys<V>(m: &BTreeMap<usize, V>) -> (r: Vec<usize>)
    ensures
        r@ == index_key_seq(m@),
        strictly_increasing_ix(r@),
        r@.to_set() == m@.dom(),
{
    let mut res: Vec<usize> = Vec::new();
    let ghost ks = spec_keys_iter(m).remaining();
    for k in it: m.keys()
        invariant
            it.seq() == ks,
            res@ == ks.take(it.index() as int).map_values(|x: &usize| *x),
    {
        res.push(*k);
        assert(ks.take(it.index() + 1).map_values(|x: &usize| *x) =~= ks.take(
            it.index() as int,
        ).map_values(|x: &usize| *x).push(*k));
    }
    proof {
        assert(res@ =~= ks.unref());
        assert(ks.unref().to_set() == m@.dom());
        assert(increasing_seq(ks));
        lemma_increasing_index_keys(ks);
        lemma_index_key_seq(m@, res@);
    }
    res
}

} // verus!

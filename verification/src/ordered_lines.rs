//! The least line of an ordered map of comments.
use vstd::prelude::*;
use vstd::std_specs::btree::axiom_increasing_seq_meaning;
use vstd::std_specs::btree::axiom_key_obeys_cmp_spec_meaning;
use vstd::std_specs::btree::axiom_spec_keys_iter;
use vstd::std_specs::btree::increasing_seq;
use vstd::std_specs::btree::spec_keys_iter;
use vstd::std_specs::cmp::OrdSpec;
use vstd::std_specs::iter::IteratorSpec;
use std::collections::BTreeMap;

verus! {

/// The first element of an increasing sequence lies before every other.
pub proof fn lemma_first_is_least<K: Ord>(s: Seq<K>, idx: int)
    requires
        increasing_seq(s),
        vstd::laws_cmp::obeys_cmp::<K>(),
        0 < idx < s.len(),
    ensures
        s[0].cmp_spec(&s[idx]) is Less,
{
    axiom_increasing_seq_meaning(s);
}

/// Line numbers behind references compare as the numbers do.
pub proof fn lemma_less_by_reference(a: &u64, b: &u64)
    requires
        a.cmp_spec(&b) is Less,
    ensures
        *a < *b,
{
}

/// The least key of `m`, if it has one.
pub fn first_line(m: &BTreeMap<u64, String>) -> (r: Option<u64>)
    ensures
        match r {
            Some(k) => m@.contains_key(k) && forall|j: u64| m@.contains_key(j) ==> k <= j,
            None => forall|j: u64| !m@.contains_key(j),
        },
{
    broadcast use vstd::laws_cmp::group_laws_cmp;
    broadcast use axiom_key_obeys_cmp_spec_meaning;

    proof {
        axiom_spec_keys_iter(m);
    }
    let ghost ks: Seq<&u64> = spec_keys_iter(m).remaining();
    let mut r: Option<u64> = None;
    // the keys come in increasing order: the first is the least
    for k in it: m.keys()
        invariant
            it.seq() == ks,
            r is None ==> it.index() == 0,
            r matches Some(v) ==> ks.len() > 0 && v == *ks[0],
        ensures
            match r {
                Some(v) => ks.len() > 0 && v == *ks[0],
                None => ks.len() == 0,
            },
    {
        if r.is_none() {
            r = Some(*k);
        }
        break ;
    }
    proof {
        match r {
            Some(v) => {
                assert(ks.unref()[0] == v);
                assert(ks.unref().to_set().contains(v));
                assert forall|j: u64| m@.contains_key(j) implies v <= j by {
                    assert(ks.unref().to_set().contains(j));
                    let idx = choose|idx: int| 0 <= idx < ks.unref().len() && ks.unref()[idx] == j;
                    assert(*ks[idx] == j);
                    if idx > 0 {
                        lemma_first_is_least(ks, idx);
                        lemma_less_by_reference(ks[0], ks[idx]);
                    }
                }
            },
            None => {
                assert forall|j: u64| !m@.contains_key(j) by {
                    if m@.contains_key(j) {
                        assert(ks.unref().to_set().contains(j));
                    }
                }
            },
        }
    }
    r
}

} // verus!

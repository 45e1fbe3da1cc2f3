//! Facts about maps of values, and copies of sequences.

use std::collections::BTreeMap;
use vstd::laws_cmp::obeys_cmp;
use vstd::prelude::*;
use vstd::std_specs::cmp::OrdSpec;
use vstd::std_specs::iter::IteratorSpec;

verus! {

/// The views of the byte strings of a sequence.
pub open spec fn byte_views(v: Seq<Vec<u8>>) -> Seq<Seq<u8>> {
    v.map_values(|b: Vec<u8>| b@)
}

/// Viewing the values of a map and inserting into it commute.
pub broadcast proof fn lemma_map_values_insert<K, V, W>(
    m: Map<K, V>,
    f: spec_fn(V) -> W,
    k: K,
    v: V,
)
    ensures
        #[trigger] m.insert(k, v).map_values(f) == m.map_values(f).insert(k, f(v)),
{
    assert(m.insert(k, v).map_values(f) =~= m.map_values(f).insert(k, f(v)));
}

/// Viewing the values of a map and removing from it commute.
pub broadcast proof fn lemma_map_values_remove<K, V, W>(m: Map<K, V>, f: spec_fn(V) -> W, k: K)
    ensures
        #[trigger] m.remove(k).map_values(f) == m.map_values(f).remove(k),
{
    assert(m.remove(k).map_values(f) =~= m.map_values(f).remove(k));
}

/// The view of an empty map is empty.
pub broadcast proof fn lemma_map_values_empty<K, V, W>(f: spec_fn(V) -> W)
    ensures
        #[trigger] Map::<K, V>::empty().map_values(f) == Map::<K, W>::empty(),
{
    assert(Map::<K, V>::empty().map_values(f) =~= Map::<K, W>::empty());
}

pub broadcast group group_map_values {
    lemma_map_values_insert,
    lemma_map_values_remove,
    lemma_map_values_empty,
}

/// A copy of a byte string.
pub fn copy_bytes(v: &[u8]) -> (r: Vec<u8>)
    ensures
        r@ == v@,
{
    let mut r: Vec<u8> = Vec::with_capacity(v.len());
    let mut i: usize = 0;
    while i < v.len()
        invariant
            i <= v.len(),
            r@ == v@.take(i as int),
        decreases v.len() - i,
    {
        r.push(v[i]);
        i = i + 1;
        assert(v@.take(i as int) =~= v@.take(i - 1).push(v@[i - 1]));
    }
    assert(v@.take(v@.len() as int) =~= v@);
    r
}

/// A copy of a sequence of byte strings.
pub fn copy_byte_strings(v: &Vec<Vec<u8>>) -> (r: Vec<Vec<u8>>)
    ensures
        byte_views(r@) == byte_views(v@),
{
    let mut r: Vec<Vec<u8>> = Vec::with_capacity(v.len());
    let mut i: usize = 0;
    while i < v.len()
        invariant
            i <= v.len(),
            byte_views(r@) =~= byte_views(v@).take(i as int),
        decreases v.len() - i,
    {
        r.push(copy_bytes(v[i].as_slice()));
        i = i + 1;
        assert(byte_views(v@).take(i as int) =~= byte_views(v@).take(i - 1).push(v@[i - 1]@));
    }
    assert(byte_views(v@).take(v@.len() as int) =~= byte_views(v@));
    r
}

/// A copy of a sequence of values that are copied by their bits.
pub fn copy_items<T: Copy>(v: &Vec<T>) -> (r: Vec<T>)
    ensures
        r@ == v@,
{
    let mut r: Vec<T> = Vec::with_capacity(v.len());
    let mut i: usize = 0;
    while i < v.len()
        invariant
            i <= v.len(),
            r@ == v@.take(i as int),
        decreases v.len() - i,
    {
        r.push(v[i]);
        i = i + 1;
        assert(v@.take(i as int) =~= v@.take(i - 1).push(v@[i - 1]));
    }
    assert(v@.take(v@.len() as int) =~= v@);
    r
}

/// What a list with one more item contains.
pub proof fn lemma_push_contains<T>(s: Seq<T>, v: T, x: T)
    ensures
        s.push(v).contains(x) <==> s.contains(x) || x == v,
{
    if s.contains(x) {
        let i = choose|i: int| 0 <= i < s.len() && s[i] == x;
        assert(s.push(v)[i] == x);
    }
    assert(s.push(v)[s.len() as int] == v);
    if s.push(v).contains(x) && x != v {
        let i = choose|i: int| 0 <= i < s.push(v).len() && s.push(v)[i] == x;
        assert(s[i] == x);
    }
}

/// Whether keys are those of a set, in order.
pub open spec fn lists_keys(keys: Seq<u128>, dom: Set<u128>) -> bool {
    &&& forall|k: u128| #[trigger] dom.contains(k) <==> keys.contains(k)
    &&& forall|i: int, j: int| 0 <= i < j < keys.len() ==> #[trigger] keys[i] < #[trigger] keys[j]
}

/// The keys of a map in ascending order.
fn sorted_keys<K: Copy + Ord, V>(m: &BTreeMap<K, V>) -> (r: Vec<K>)
    requires
        obeys_cmp::<K>(),
    ensures
        forall|i: int, j: int|
            0 <= i < j < r@.len() ==> (#[trigger] r@[i]).cmp_spec(#[trigger] &r@[j]) is Less,
        forall|k: K| #[trigger] m@.contains_key(k) <==> r@.contains(k),
        r@.len() == m@.len(),
{
    broadcast use vstd::std_specs::btree::group_btree_axioms;

    assert(vstd::std_specs::btree::key_obeys_cmp_spec::<K>());
    let mut r: Vec<K> = Vec::new();
    for pair in it: m.iter()
        invariant
            it.seq() == m.iter().remaining(),
            r@.len() == it.index(),
            forall|i: int| 0 <= i < it.index() ==> r@[i] == *(#[trigger] it.seq()[i]).0,
    {
        assert(it.seq()[it.index()] == pair);
        r.push(*pair.0);
    }
    proof {
        let seq = m.iter().remaining();
        let keys = seq.map_values(|kv: (&K, &V)| *kv.0);
        assert(vstd::std_specs::btree::increasing_seq(keys));
        assert(r@ =~= keys);
        assert forall|k: K| #[trigger] m@.contains_key(k) implies r@.contains(k) by {
            assert(seq.contains((&k, &m@[k])));
            let i = choose|i: int| 0 <= i < seq.len() && seq[i] == (&k, &m@[k]);
            assert(r@[i] == k);
        }
        assert forall|k: K| r@.contains(k) implies #[trigger] m@.contains_key(k) by {
            let i = choose|i: int| 0 <= i < r@.len() && r@[i] == k;
            assert(m@.contains_key(*seq[i].0));
        }
    }
    r
}

/// The keys of a map in ascending order.
pub fn sorted_ids<V>(m: &BTreeMap<u128, V>) -> (r: Vec<u128>)
    ensures
        forall|i: int, j: int| 0 <= i < j < r@.len() ==> #[trigger] r@[i] < #[trigger] r@[j],
        forall|k: u128| #[trigger] m@.contains_key(k) <==> r@.contains(k),
        r@.len() == m@.len(),
{
    broadcast use vstd::laws_cmp::group_laws_cmp;

    let r = sorted_keys(m);
    assert forall|i: int, j: int| 0 <= i < j < r@.len() implies #[trigger] r@[i] < #[trigger] r@[j] by {
        assert(r@[i].cmp_spec(&r@[j]) is Less);
    }
    r
}

/// The keys of a map in ascending order.
pub fn sorted_indexes<V>(m: &BTreeMap<u64, V>) -> (r: Vec<u64>)
    ensures
        forall|i: int, j: int| 0 <= i < j < r@.len() ==> #[trigger] r@[i] < #[trigger] r@[j],
        forall|k: u64| #[trigger] m@.contains_key(k) <==> r@.contains(k),
        r@.len() == m@.len(),
{
    broadcast use vstd::laws_cmp::group_laws_cmp;

    let r = sorted_keys(m);
    assert forall|i: int, j: int| 0 <= i < j < r@.len() implies #[trigger] r@[i] < #[trigger] r@[j] by {
        assert(r@[i].cmp_spec(&r@[j]) is Less);
    }
    r
}

} // verus!

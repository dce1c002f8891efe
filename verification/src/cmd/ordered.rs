//! A map from texts to texts that keeps the order of insertion.
use indexmap::IndexMap;
use vstd::prelude::*;

verus! {

/// The map of the indexmap crate.
#[verifier::external_type_specification]
#[verifier::external_body]
#[verifier::reject_recursive_types(K)]
#[verifier::reject_recursive_types(V)]
#[verifier::reject_recursive_types(S)]
pub struct ExIndexMap<K, V, S>(indexmap::IndexMap<K, V, S>);

/// The keys and values of an `indexmap::IndexMap`, in its order.
pub uninterp spec fn entries(map: IndexMap<String, String>) -> Seq<(Seq<char>, Seq<char>)>;

/// The entries after an insertion: the value under the key is replaced where
/// it stands, and a key that is new comes last.
pub open spec fn inserted(e: Seq<(Seq<char>, Seq<char>)>, key: Seq<char>, value: Seq<char>) -> Seq<
    (Seq<char>, Seq<char>),
>
    decreases e.len(),
{
    if e.len() == 0 {
        seq![(key, value)]
    } else if e[0].0 == key {
        seq![(key, value)] + e.skip(1)
    } else {
        seq![e[0]] + inserted(e.skip(1), key, value)
    }
}

/// `indexmap::IndexMap::new`: a map without entries.
#[verifier::external_body]
pub(crate) fn new_map() -> (r: IndexMap<String, String>)
    ensures
        entries(r) == Seq::<(Seq<char>, Seq<char>)>::empty(),
{
    IndexMap::new()
}

/// `indexmap::IndexMap::insert`: a known key keeps its place and gets the new
/// value, a new one is put last.
#[verifier::external_body]
pub(crate) fn insert(map: &mut IndexMap<String, String>, key: String, value: String)
    ensures
        entries(*final(map)) == inserted(entries(*old(map)), key@, value@),
{
    map.insert(key, value);
}

/// The texts of pairs.
pub open spec fn pairs(v: Seq<(String, String)>) -> Seq<(Seq<char>, Seq<char>)> {
    Seq::new(v.len(), |i: int| (v[i].0@, v[i].1@))
}

/// `indexmap::IndexMap::iter`: the entries, in order.
#[verifier::external_body]
pub(crate) fn list(map: &IndexMap<String, String>) -> (r: Vec<(String, String)>)
    ensures
        pairs(r@) == entries(*map),
{
    map.iter().map(|(k, v)| (k.clone(), v.clone())).collect()
}

/// No key occurs twice.
pub open spec fn distinct_keys(e: Seq<(Seq<char>, Seq<char>)>) -> bool {
    forall|i: int, j: int| 0 <= i < j < e.len() ==> (#[trigger] e[i]).0 != (#[trigger] e[j]).0
}

/// A key that is new comes last.
pub proof fn lemma_insert_new(e: Seq<(Seq<char>, Seq<char>)>, key: Seq<char>, value: Seq<char>)
    requires
        forall|i: int| 0 <= i < e.len() ==> (#[trigger] e[i]).0 != key,
    ensures
        inserted(e, key, value) == e.push((key, value)),
    decreases e.len(),
{
    if e.len() > 0 {
        assert forall|i: int| 0 <= i < e.skip(1).len() implies (#[trigger] e.skip(1)[i]).0 != key by {
            assert(e.skip(1)[i] == e[i + 1]);
        }
        lemma_insert_new(e.skip(1), key, value);
    }
    assert(inserted(e, key, value) =~= e.push((key, value)));
}

/// A key that was inserted is found again with its value, and no other entry
/// changes.
pub proof fn law_insertion(e: Seq<(Seq<char>, Seq<char>)>, key: Seq<char>, value: Seq<char>)
    ensures
        exists|i: int| 0 <= i < inserted(e, key, value).len() && #[trigger] inserted(e, key, value)[i] == (
            key,
            value,
        ),
        e.len() <= inserted(e, key, value).len() <= e.len() + 1,
        forall|i: int|
            0 <= i < e.len() && (#[trigger] e[i]).0 != key ==> inserted(e, key, value)[i] == e[i],
    decreases e.len(),
{
    let r = inserted(e, key, value);
    if e.len() == 0 || e[0].0 == key {
        assert(r[0] == (key, value));
    } else {
        let rest = inserted(e.skip(1), key, value);
        law_insertion(e.skip(1), key, value);
        let k = choose|k: int| 0 <= k < rest.len() && #[trigger] rest[k] == (key, value);
        assert(r[k + 1] == rest[k]);
        assert forall|i: int| 0 <= i < e.len() && (#[trigger] e[i]).0 != key implies r[i] == e[i] by {
            if i > 0 {
                assert(e.skip(1)[i - 1] == e[i]);
                assert(r[i] == rest[i - 1]);
            }
        }
    }
}

/// The value of a key: that of its first entry.
pub open spec fn value_of(e: Seq<(Seq<char>, Seq<char>)>, key: Seq<char>) -> Option<Seq<char>>
    decreases e.len(),
{
    if e.len() == 0 {
        None
    } else if e[0].0 == key {
        Some(e[0].1)
    } else {
        value_of(e.skip(1), key)
    }
}

/// A key has the value that was put in last, and the other keys keep theirs.
pub proof fn law_inserted_value(
    e: Seq<(Seq<char>, Seq<char>)>,
    key: Seq<char>,
    value: Seq<char>,
    other: Seq<char>,
)
    ensures
        value_of(inserted(e, key, value), key) == Some(value),
        other != key ==> value_of(inserted(e, key, value), other) == value_of(e, other),
    decreases e.len(),
{
    let after = inserted(e, key, value);
    if e.len() == 0 {
        assert(after.skip(1) =~= Seq::<(Seq<char>, Seq<char>)>::empty());
        assert(value_of(after.skip(1), other) is None);
    } else if e[0].0 == key {
        assert(after.skip(1) =~= e.skip(1));
    } else {
        law_inserted_value(e.skip(1), key, value, other);
        assert(after.skip(1) =~= inserted(e.skip(1), key, value));
    }
}

} // verus!

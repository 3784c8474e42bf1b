//! The term dictionary: a `trie_rs` map from the UTF-8 bytes of a term to the number
//! of its posting list.

use vstd::prelude::*;
use trie_rs::map::{Trie, TrieBuilder};

verus! {

#[verifier::external_type_specification]
#[verifier::external_body]
#[verifier::reject_recursive_types(Label)]
#[verifier::reject_recursive_types(Value)]
pub struct ExTrie<Label, Value>(Trie<Label, Value>);

#[verifier::external_type_specification]
#[verifier::external_body]
#[verifier::reject_recursive_types(Label)]
#[verifier::reject_recursive_types(Value)]
pub struct ExTrieBuilder<Label, Value>(TrieBuilder<Label, Value>);

/// The entries of a trie: key bytes to value.
pub uninterp spec fn trie_entries(t: Trie<u8, u32>) -> Map<Seq<u8>, u32>;

/// The entries pushed into a trie builder so far: key bytes to value.
pub uninterp spec fn builder_entries(b: TrieBuilder<u8, u32>) -> Map<Seq<u8>, u32>;

/// The trie is one that `TrieBuilder::build` made, so that its tables agree with each
/// other. A trie read back from bytes by serde is not checked, and `exact_match` can
/// index out of bounds on one whose tables disagree.
pub uninterp spec fn trie_built(t: Trie<u8, u32>) -> bool;

/// The value the dictionary holds for `key`: an empty key matches nothing.
pub open spec fn trie_lookup(entries: Map<Seq<u8>, u32>, key: Seq<u8>) -> Option<u32> {
    if key.len() > 0 && entries.contains_key(key) {
        Some(entries[key])
    } else {
        None
    }
}

/// `Trie::exact_match`: the value stored under exactly `key` (the walk from the root
/// never matches an empty key). Only a trie that `TrieBuilder::build` made is admitted.
#[verifier::external_body]
pub(crate) fn trie_exact_match(trie: &Trie<u8, u32>, key: &[u8]) -> (found: Option<u32>)
    requires
        trie_built(*trie),
    ensures
        found == trie_lookup(trie_entries(*trie), key@),
{
    trie.exact_match(key).copied()
}

/// `TrieBuilder::new`: a builder with no entries.
#[verifier::external_body]
pub(crate) fn trie_builder_new() -> (builder: TrieBuilder<u8, u32>)
    ensures
        builder_entries(builder).is_empty(),
{
    TrieBuilder::new()
}

/// `TrieBuilder::push`: stores `value` under `key`, replacing an earlier value for the
/// same key. The crate panics on an empty key, which `requires` leaves out.
#[verifier::external_body]
pub(crate) fn trie_builder_push(b: &mut TrieBuilder<u8, u32>, key: &[u8], value: u32)
    requires
        key@.len() > 0,
    ensures
        builder_entries(*final(b)) == builder_entries(*old(b)).insert(key@, value),
{
    b.push(key, value)
}

/// `TrieBuilder::build`: a trie holding exactly the pushed entries.
#[verifier::external_body]
pub(crate) fn trie_builder_build(b: TrieBuilder<u8, u32>) -> (t: Trie<u8, u32>)
    ensures
        trie_entries(t) == builder_entries(b),
        trie_built(t),
{
    b.build()
}

/// The dictionary that a list of (key, value) entries stands for: a later entry for
/// the same key replaces an earlier one.
pub open spec fn entries_map(e: Seq<(Seq<u8>, u32)>) -> Map<Seq<u8>, u32>
    decreases e.len(),
{
    if e.len() == 0 {
        Map::empty()
    } else {
        entries_map(e.drop_last()).insert(e.last().0, e.last().1)
    }
}

/// The keys and values of a vector of entries.
pub open spec fn entries_view(e: Seq<(Vec<u8>, u32)>) -> Seq<(Seq<u8>, u32)> {
    e.map_values(|x: (Vec<u8>, u32)| (x.0@, x.1))
}

/// Builds the dictionary of `entries`; `None` when some key is empty (a trie holds no
/// empty key).
pub fn build_dictionary(entries: &Vec<(Vec<u8>, u32)>) -> (dict: Option<Trie<u8, u32>>)
    ensures
        dict is Some <==> forall|i: int|
            0 <= i < entries.len() ==> (#[trigger] entries_view(entries@)[i]).0.len() > 0,
        dict matches Some(t) ==> trie_built(t) && trie_entries(t) == entries_map(
            entries_view(entries@),
        ),
{
    let ghost ev = entries_view(entries@);
    let mut i: usize = 0;
    while i < entries.len()
        invariant
            i <= entries.len(),
            ev == entries_view(entries@),
            forall|j: int| 0 <= j < i ==> (#[trigger] ev[j]).0.len() > 0,
        decreases entries.len() - i,
    {
        assert(ev[i as int].0 == entries[i as int].0@);
        if entries[i].0.len() == 0 {
            return None;
        }
        i += 1;
    }
    let mut builder = trie_builder_new();
    let mut k: usize = 0;
    assert(builder_entries(builder) =~= entries_map(ev.take(0)));
    while k < entries.len()
        invariant
            k <= entries.len(),
            ev == entries_view(entries@),
            forall|j: int| 0 <= j < entries.len() ==> (#[trigger] ev[j]).0.len() > 0,
            builder_entries(builder) == entries_map(ev.take(k as int)),
        decreases entries.len() - k,
    {
        assert(ev[k as int] == (entries[k as int].0@, entries[k as int].1));
        assert(ev.take(k + 1).drop_last() =~= ev.take(k as int));
        trie_builder_push(&mut builder, entries[k].0.as_slice(), entries[k].1);
        k += 1;
    }
    assert(ev.take(k as int) =~= ev);
    Some(trie_builder_build(builder))
}

/// Adding an entry to the end maps its key to its own value, whatever came before.
pub proof fn lemma_entries_map_push(e: Seq<(Seq<u8>, u32)>, k: Seq<u8>, v: u32)
    ensures
        entries_map(e.push((k, v))) == entries_map(e).insert(k, v),
        entries_map(seq![(k, v)]) == Map::<Seq<u8>, u32>::empty().insert(k, v),
{
    reveal_with_fuel(entries_map, 2);
    assert(e.push((k, v)).drop_last() =~= e);
    assert(seq![(k, v)].drop_last() =~= Seq::<(Seq<u8>, u32)>::empty());
    assert(seq![(k, v)].last() == (k, v));
}

/// A dictionary built from entries holds exactly their keys, and maps each key to the
/// value stored with its last entry.
pub proof fn lemma_entries_map_last_wins(e: Seq<(Seq<u8>, u32)>)
    ensures
        forall|k: Seq<u8>|
            #[trigger] entries_map(e).contains_key(k) <==> exists|i: int|
                0 <= i < e.len() && (#[trigger] e[i]).0 == k,
        forall|i: int|
            0 <= i < e.len() && (forall|j: int| i < j < e.len() ==> (#[trigger] e[j]).0 != e[i].0)
                ==> entries_map(e)[(#[trigger] e[i]).0] == e[i].1,
    decreases e.len(),
{
    if e.len() > 0 {
        let p = e.drop_last();
        lemma_entries_map_last_wins(p);
        let last = e.last();
        assert(entries_map(e) == entries_map(p).insert(last.0, last.1));
        assert forall|k: Seq<u8>|
            #[trigger] entries_map(e).contains_key(k) <==> exists|i: int|
                0 <= i < e.len() && (#[trigger] e[i]).0 == k by {
            if entries_map(e).contains_key(k) {
                if k == last.0 {
                    assert(e[e.len() - 1].0 == k);
                } else {
                    assert(entries_map(p).contains_key(k));
                    let i = choose|i: int| 0 <= i < p.len() && (#[trigger] p[i]).0 == k;
                    assert(e[i] == p[i]);
                }
            }
            if exists|i: int| 0 <= i < e.len() && (#[trigger] e[i]).0 == k {
                let i = choose|i: int| 0 <= i < e.len() && (#[trigger] e[i]).0 == k;
                if i < p.len() {
                    assert(p[i] == e[i]);
                    assert(entries_map(p).contains_key(k));
                }
            }
        }
        assert forall|i: int|
            0 <= i < e.len() && (forall|j: int| i < j < e.len() ==> (#[trigger] e[j]).0 != e[i].0)
                implies entries_map(e)[(#[trigger] e[i]).0] == e[i].1 by {
            if i < p.len() {
                assert(e[i] == p[i]);
                assert(e[e.len() - 1].0 != e[i].0);
                assert forall|j: int| i < j < p.len() implies (#[trigger] p[j]).0 != p[i].0 by {
                    assert(p[j] == e[j]);
                }
            }
        }
    }
}

} // verus!

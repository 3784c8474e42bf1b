//! Conjunctive (AND) queries over an index whose posting lists are plain sorted id lists.

use vstd::prelude::*;
use vstd::utf8::encode_utf8;
use trie_rs::map::Trie;
use crate::codec::is_nondecreasing;
use crate::intersect::{intersect_sorted, intersect_spec, lemma_intersect_sorted};
use crate::linguist::{Linguist, select_tokens_spec};
use crate::text::{split_at_separators, str_lowercase};
use crate::trie::{trie_built, trie_entries, trie_exact_match, trie_lookup};
use crate::window::lists_view;

verus! {

/// The list that the index holds for `token`: the dictionary maps the token's UTF-8
/// bytes to a list number, and that number must name one of `lists`.
pub open spec fn term_list<T>(
    entries: Map<Seq<u8>, u32>,
    lists: Seq<Seq<T>>,
    token: Seq<char>,
) -> Option<Seq<T>> {
    match trie_lookup(entries, encode_utf8(token)) {
        Some(n) => if n < lists.len() {
            Some(lists[n as int])
        } else {
            None
        },
        None => None,
    }
}

/// The lists of all `tokens`, in order; `None` when some token has none.
pub open spec fn term_lists<T>(
    entries: Map<Seq<u8>, u32>,
    lists: Seq<Seq<T>>,
    tokens: Seq<Seq<char>>,
) -> Option<Seq<Seq<T>>>
    decreases tokens.len(),
{
    if tokens.len() == 0 {
        Some(seq![])
    } else {
        match term_lists(entries, lists, tokens.drop_last()) {
            None => None,
            Some(ls) => match term_list(entries, lists, tokens.last()) {
                None => None,
                Some(l) => Some(ls.push(l)),
            },
        }
    }
}

/// `acc` intersected with every list of `rest`, left to right.
pub open spec fn intersect_all(acc: Seq<u32>, rest: Seq<Seq<u32>>) -> Seq<u32>
    decreases rest.len(),
{
    if rest.len() == 0 {
        acc
    } else {
        intersect_all(intersect_spec(acc, rest[0]), rest.drop_first())
    }
}

/// The answer to a conjunctive query: empty when there are no tokens or some token has
/// no list, otherwise the intersection of the tokens' lists.
pub open spec fn conjunctive_result(
    entries: Map<Seq<u8>, u32>,
    lists: Seq<Seq<u32>>,
    tokens: Seq<Seq<char>>,
) -> Seq<u32> {
    match term_lists(entries, lists, tokens) {
        Some(ls) => if ls.len() == 0 {
            seq![]
        } else {
            intersect_all(ls[0], ls.drop_first())
        },
        None => seq![],
    }
}

/// The tokens a linguist makes of a query.
pub open spec fn query_tokens(linguist: Linguist, query: Seq<char>) -> Seq<Seq<char>> {
    select_tokens_spec(
        linguist.lemmas(),
        linguist.stopword_set(),
        split_at_separators(str_lowercase(query)),
    )
}

/// Intersecting with nothing to start from gives nothing.
pub(crate) proof fn lemma_intersect_empty(rest: Seq<Seq<u32>>)
    ensures
        intersect_all(seq![], rest) == Seq::<u32>::empty(),
    decreases rest.len(),
{
    if rest.len() > 0 {
        assert(intersect_spec(seq![], rest[0]) == Seq::<u32>::empty());
        lemma_intersect_empty(rest.drop_first());
    }
}

/// Once some token has no list, the tokens have no lists.
pub(crate) proof fn lemma_missing_term<T>(
    entries: Map<Seq<u8>, u32>,
    lists: Seq<Seq<T>>,
    toks: Seq<Seq<char>>,
    k: int,
)
    requires
        0 <= k <= toks.len(),
        term_lists(entries, lists, toks.take(k)) is None,
    ensures
        term_lists(entries, lists, toks) is None,
    decreases toks.len() - k,
{
    if k < toks.len() {
        assert(toks.take(k + 1).drop_last() =~= toks.take(k));
        lemma_missing_term(entries, lists, toks, k + 1);
    } else {
        assert(toks.take(k) =~= toks);
    }
}

/// The list that the index holds for `token`.
pub fn lookup_term<'a, T>(
    token: &String,
    trie: &Trie<u8, u32>,
    occurrence_lists: &'a Vec<Vec<T>>,
) -> (found: Option<&'a Vec<T>>)
    requires
        trie_built(*trie),
    ensures
        match term_list(trie_entries(*trie), lists_view(occurrence_lists@), token@) {
            Some(l) => found matches Some(v) && v@ == l,
            None => found is None,
        },
{
    let key = token.as_str().as_bytes();
    match trie_exact_match(trie, key) {
        Some(list_index) => {
            if (list_index as usize) < occurrence_lists.len() {
                Some(&occurrence_lists[list_index as usize])
            } else {
                None
            }
        },
        None => None,
    }
}

pub fn copy_ids(v: &Vec<u32>) -> (out: Vec<u32>)
    ensures
        out@ == v@,
{
    let mut out: Vec<u32> = Vec::new();
    let mut i: usize = 0;
    while i < v.len()
        invariant
            i <= v.len(),
            out@ == v@.take(i as int),
        decreases v.len() - i,
    {
        out.push(v[i]);
        i += 1;
        assert(out@ =~= v@.take(i as int));
    }
    assert(v@.take(i as int) =~= v@);
    out
}

/// The documents holding every one of `tokens`: the intersection of the tokens' lists,
/// empty when there are no tokens or some token is not in the index.
pub fn search_tokens(
    tokens: &Vec<String>,
    trie: &Trie<u8, u32>,
    occurrence_lists: &Vec<Vec<u32>>,
) -> (ids: Vec<u32>)
    requires
        trie_built(*trie),
    ensures
        ids@ == conjunctive_result(
            trie_entries(*trie),
            lists_view(occurrence_lists@),
            tokens.deep_view(),
        ),
{
    let ghost entries = trie_entries(*trie);
    let ghost lists = lists_view(occurrence_lists@);
    let ghost toks = tokens.deep_view();
    if tokens.len() == 0 {
        return Vec::new();
    }
    let mut result_sets: Vec<&Vec<u32>> = Vec::new();
    let mut t: usize = 0;
    while t < tokens.len()
        invariant
            t <= tokens.len(),
            tokens.len() > 0,
            result_sets.len() == t,
            toks == tokens.deep_view(),
            entries == trie_entries(*trie),
            trie_built(*trie),
            lists == lists_view(occurrence_lists@),
            term_lists(entries, lists, toks.take(t as int)) == Some(
                result_sets@.map_values(|v: &Vec<u32>| v@),
            ),
        decreases tokens.len() - t,
    {
        let ghost pre = toks.take(t + 1);
        assert(pre.drop_last() =~= toks.take(t as int));
        assert(pre.last() == tokens[t as int]@);
        match lookup_term(&tokens[t], trie, occurrence_lists) {
            Some(list) => {
                let ghost before = result_sets@.map_values(|v: &Vec<u32>| v@);
                result_sets.push(list);
                assert(result_sets@.map_values(|v: &Vec<u32>| v@) =~= before.push(list@));
            },
            None => {
                proof {
                    lemma_missing_term(entries, lists, toks, t + 1);
                }
                return Vec::new();
            },
        }
        t += 1;
    }
    assert(toks.take(t as int) =~= toks);
    let ghost ls = result_sets@.map_values(|v: &Vec<u32>| v@);
    let mut intersection = copy_ids(result_sets[0]);
    assert(ls[0] == intersection@);
    let mut k: usize = 1;
    assert(ls.drop_first().subrange(0, ls.len() - 1) =~= ls.drop_first());
    while k < result_sets.len()
        invariant
            1 <= k <= result_sets.len(),
            ls == result_sets@.map_values(|v: &Vec<u32>| v@),
            term_lists(entries, lists, toks) == Some(ls),
            entries == trie_entries(*trie),
            trie_built(*trie),
            lists == lists_view(occurrence_lists@),
            toks == tokens.deep_view(),
            ls.len() == result_sets.len(),
            intersect_all(ls[0], ls.drop_first()) == intersect_all(
                intersection@,
                ls.subrange(k as int, ls.len() as int),
            ),
        ensures
            k == result_sets.len() || intersection@.len() == 0,
        decreases result_sets.len() - k,
    {
        let ghost rest = ls.subrange(k as int, ls.len() as int);
        assert(rest.drop_first() =~= ls.subrange(k + 1, ls.len() as int));
        assert(rest[0] == result_sets[k as int]@);
        intersection = intersect_sorted(intersection.as_slice(), result_sets[k].as_slice());
        k += 1;
        if intersection.len() == 0 {
            proof {
                lemma_intersect_empty(ls.subrange(k as int, ls.len() as int));
                assert(intersection@ =~= Seq::<u32>::empty());
            }
            break;
        }
    }
    proof {
        if k == result_sets.len() {
            assert(ls.subrange(k as int, ls.len() as int) =~= Seq::<Seq<u32>>::empty());
        } else {
            lemma_intersect_empty(ls.subrange(k as int, ls.len() as int));
            assert(intersection@ =~= Seq::<u32>::empty());
        }
    }
    intersection
}

/// The documents matching every token of `query` after normalisation by `linguist`.
pub fn search(
    query: &str,
    linguist: &Linguist,
    trie: &Trie<u8, u32>,
    occurrence_lists: &Vec<Vec<u32>>,
) -> (ids: Vec<u32>)
    requires
        linguist.wf(),
        trie_built(*trie),
    ensures
        ids@ == conjunctive_result(
            trie_entries(*trie),
            lists_view(occurrence_lists@),
            query_tokens(*linguist, query@),
        ),
{
    let tokens = linguist.process(query);
    search_tokens(&tokens, trie, occurrence_lists)
}


/// The lists of the tokens are, in order, the list of each token; they exist when
/// every token has one.
pub(crate) proof fn lemma_term_lists_shape<T>(
    entries: Map<Seq<u8>, u32>,
    lists: Seq<Seq<T>>,
    toks: Seq<Seq<char>>,
)
    ensures
        term_lists(entries, lists, toks) matches Some(ls) ==> ls.len() == toks.len() && (forall|
            j: int,
        |
            0 <= j < toks.len() ==> term_list(entries, lists, #[trigger] toks[j]) == Some(ls[j])),
        (forall|j: int|
            0 <= j < toks.len() ==> #[trigger] term_list(entries, lists, toks[j]) is Some)
            ==> term_lists(entries, lists, toks) is Some,
    decreases toks.len(),
{
    if toks.len() > 0 {
        let pre = toks.drop_last();
        lemma_term_lists_shape(entries, lists, pre);
        assert forall|j: int| 0 <= j < pre.len() implies pre[j] == toks[j] by {}
        if let Some(ls) = term_lists(entries, lists, toks) {
            let lp = term_lists(entries, lists, pre).unwrap();
            assert(ls == lp.push(term_list(entries, lists, toks.last()).unwrap()));
            assert forall|j: int| 0 <= j < toks.len() implies term_list(
                entries,
                lists,
                #[trigger] toks[j],
            ) == Some(ls[j]) by {
                if j < pre.len() {
                    assert(pre[j] == toks[j]);
                }
            }
        }
        if forall|j: int|
            0 <= j < toks.len() ==> #[trigger] term_list(entries, lists, toks[j]) is Some {
            assert forall|j: int| 0 <= j < pre.len() implies #[trigger] term_list(
                entries,
                lists,
                pre[j],
            ) is Some by {
                assert(pre[j] == toks[j]);
            }
            assert(term_list(entries, lists, toks[toks.len() - 1]) is Some);
        }
    }
}

/// Intersecting sorted lists one after the other keeps exactly the values that every
/// list holds.
pub proof fn lemma_intersect_all_and(acc: Seq<u32>, rest: Seq<Seq<u32>>)
    requires
        is_nondecreasing(acc),
        forall|i: int| 0 <= i < rest.len() ==> is_nondecreasing(#[trigger] rest[i]),
    ensures
        forall|x: u32|
            #[trigger] intersect_all(acc, rest).contains(x) <==> acc.contains(x) && (forall|
                i: int,
            | 0 <= i < rest.len() ==> #[trigger] rest[i].contains(x)),
    decreases rest.len(),
{
    if rest.len() > 0 {
        lemma_intersect_sorted(acc, rest[0]);
        let next = intersect_spec(acc, rest[0]);
        let tail = rest.drop_first();
        assert forall|i: int| 0 <= i < tail.len() implies is_nondecreasing(#[trigger] tail[i]) by {
            assert(tail[i] == rest[i + 1]);
        }
        lemma_intersect_all_and(next, tail);
        assert(intersect_all(acc, rest) == intersect_all(next, tail));
        assert forall|x: u32| #[trigger]
            intersect_all(acc, rest).contains(x) <==> acc.contains(x) && (forall|i: int|
                0 <= i < rest.len() ==> #[trigger] rest[i].contains(x)) by {
            if intersect_all(acc, rest).contains(x) {
                assert(intersect_all(next, tail).contains(x));
                assert(next.contains(x));
                assert forall|i: int| 0 <= i < rest.len() implies #[trigger] rest[i].contains(x) by {
                    if i > 0 {
                        assert(tail[i - 1] == rest[i]);
                    }
                }
            }
            if acc.contains(x) && (forall|i: int|
                0 <= i < rest.len() ==> #[trigger] rest[i].contains(x)) {
                assert(rest[0].contains(x));
                assert(next.contains(x));
                assert forall|i: int| 0 <= i < tail.len() implies #[trigger] tail[i].contains(x) by {
                    assert(tail[i] == rest[i + 1]);
                }
            }
        }
    }
}

/// A conjunctive query is an AND: when every posting list of the index is sorted, a
/// document is in the answer exactly when the query has at least one token and the
/// list of every token holds the document.
pub proof fn lemma_conjunctive_result_is_and(
    entries: Map<Seq<u8>, u32>,
    lists: Seq<Seq<u32>>,
    tokens: Seq<Seq<char>>,
)
    requires
        forall|i: int| 0 <= i < lists.len() ==> is_nondecreasing(#[trigger] lists[i]),
    ensures
        forall|x: u32|
            #[trigger] conjunctive_result(entries, lists, tokens).contains(x) <==> tokens.len() > 0
                && (forall|j: int|
                0 <= j < tokens.len() ==> (#[trigger] term_list(entries, lists, tokens[j])
                    matches Some(l) && l.contains(x))),
{
    lemma_term_lists_shape(entries, lists, tokens);
    assert forall|x: u32| #[trigger]
        conjunctive_result(entries, lists, tokens).contains(x) <==> tokens.len() > 0 && (forall|
            j: int,
        |
            0 <= j < tokens.len() ==> (#[trigger] term_list(entries, lists, tokens[j]) matches Some(
                l,
            ) && l.contains(x))) by {
        match term_lists(entries, lists, tokens) {
            Some(ls) => {
                if ls.len() > 0 {
                    assert forall|i: int| 0 <= i < ls.len() implies is_nondecreasing(
                        #[trigger] ls[i],
                    ) by {
                        let l = term_list(entries, lists, tokens[i]).unwrap();
                        let n = trie_lookup(entries, encode_utf8(tokens[i])).unwrap();
                        assert(l == lists[n as int]);
                    }
                    let tail = ls.drop_first();
                    assert forall|i: int| 0 <= i < tail.len() implies is_nondecreasing(
                        #[trigger] tail[i],
                    ) by {
                        assert(tail[i] == ls[i + 1]);
                    }
                    lemma_intersect_all_and(ls[0], tail);
                    if conjunctive_result(entries, lists, tokens).contains(x) {
                        assert forall|j: int| 0 <= j < tokens.len() implies (#[trigger] term_list(
                            entries,
                            lists,
                            tokens[j],
                        ) matches Some(l) && l.contains(x)) by {
                            if j > 0 {
                                assert(tail[j - 1] == ls[j]);
                                assert(tail[j - 1].contains(x));
                            }
                        }
                    }
                    if tokens.len() > 0 && (forall|j: int|
                        0 <= j < tokens.len() ==> (#[trigger] term_list(
                            entries,
                            lists,
                            tokens[j],
                        ) matches Some(l) && l.contains(x))) {
                        assert(term_list(entries, lists, tokens[0]) == Some(ls[0]));
                        assert forall|i: int| 0 <= i < tail.len() implies #[trigger] tail[i].contains(
                            x,
                        ) by {
                            assert(tail[i] == ls[i + 1]);
                            assert(term_list(entries, lists, tokens[i + 1]) == Some(ls[i + 1]));
                        }
                    }
                }
            },
            None => {
                if tokens.len() > 0 && (forall|j: int|
                    0 <= j < tokens.len() ==> (#[trigger] term_list(
                        entries,
                        lists,
                        tokens[j],
                    ) matches Some(l) && l.contains(x))) {
                    assert forall|j: int| 0 <= j < tokens.len() implies #[trigger] term_list(
                        entries,
                        lists,
                        tokens[j],
                    ) is Some by {}
                }
            },
        }
    }
}

} // verus!

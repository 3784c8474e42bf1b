//! The integer side of ranked retrieval: for a query's tokens, the documents that
//! hold all of them, each with what its score is computed from (the term frequency and
//! document frequency of every term, and the smallest window holding every term).

use vstd::prelude::*;
use vstd::utf8::encode_utf8;
use trie_rs::map::Trie;
use crate::builder::{
    lemma_encode_nonempty, lemma_term_postings_docs_below, lemma_term_postings_entries,
    positions_of, term_postings,
};
use crate::codec::{
    Posting, decode_posting_list, decoded_postings, is_nondecreasing,
    lemma_decoded_sorted, list_well_formed, posting_list_well_formed, postings_view,
};
use crate::intersect::{intersect_sorted, intersect_spec, is_increasing, lemma_intersect_sorted};
use crate::query::copy_ids;
use crate::query::{
    intersect_all, lemma_intersect_all_and, lemma_intersect_empty, lemma_missing_term,
    lemma_term_lists_shape, lookup_term, term_list, term_lists,
};
use crate::trie::{trie_built, trie_entries, trie_lookup};
use crate::window::{
    lists_view, min_window_result, try_min_window,
};

verus! {

/// What the index records of a document.
pub struct DocumentMetadata {
    pub path: String,
    pub title: String,
    pub len: u32,
}

/// The document ids of a posting list, in order.
pub open spec fn posting_ids(p: Seq<(u32, Seq<u32>)>) -> Seq<u32> {
    p.map_values(|e: (u32, Seq<u32>)| e.0)
}

/// Index of the first entry of `p` for document `doc`.
pub open spec fn first_entry(p: Seq<(u32, Seq<u32>)>, doc: u32) -> Option<int>
    decreases p.len(),
{
    if p.len() == 0 {
        None
    } else if p[0].0 == doc {
        Some(0)
    } else {
        match first_entry(p.drop_first(), doc) {
            Some(k) => Some(k + 1),
            None => None,
        }
    }
}

/// Document ids of `p` never decrease.
pub open spec fn ids_sorted(p: Seq<(u32, Seq<u32>)>) -> bool {
    forall|a: int, b: int| 0 <= a <= b < p.len() ==> p[a].0 <= p[b].0
}

proof fn lemma_first_entry(p: Seq<(u32, Seq<u32>)>, doc: u32)
    ensures
        first_entry(p, doc) matches Some(k) ==> 0 <= k < p.len() && p[k].0 == doc && (forall|
            j: int,
        | 0 <= j < k ==> p[j].0 != doc),
        first_entry(p, doc) is None ==> forall|j: int| 0 <= j < p.len() ==> p[j].0 != doc,
    decreases p.len(),
{
    if p.len() > 0 {
        lemma_first_entry(p.drop_first(), doc);
        assert forall|j: int| 0 < j < p.len() implies p[j] == p.drop_first()[j - 1] by {}
    }
}

/// The document ids of a posting list.
pub fn posting_doc_ids(list: &Vec<Posting>) -> (ids: Vec<u32>)
    ensures
        ids@ == posting_ids(postings_view(list@)),
{
    let mut ids: Vec<u32> = Vec::new();
    let mut i: usize = 0;
    while i < list.len()
        invariant
            i <= list.len(),
            ids@ == posting_ids(postings_view(list@)).take(i as int),
        decreases list.len() - i,
    {
        ids.push(list[i].doc_id);
        i += 1;
        assert(ids@ =~= posting_ids(postings_view(list@)).take(i as int));
    }
    assert(posting_ids(postings_view(list@)).take(i as int) =~= posting_ids(postings_view(list@)));
    ids
}

/// Where the first entry for `doc` stands in a posting list sorted by document id
/// (binary search for the first entry not below `doc`).
pub fn find_posting(list: &Vec<Posting>, doc: u32) -> (found: Option<usize>)
    requires
        ids_sorted(postings_view(list@)),
    ensures
        match first_entry(postings_view(list@), doc) {
            Some(k) => found == Some(k as usize),
            None => found is None,
        },
{
    let ghost p = postings_view(list@);
    proof {
        lemma_first_entry(p, doc);
    }
    let mut lo: usize = 0;
    let mut hi: usize = list.len();
    while lo < hi
        invariant
            p == postings_view(list@),
            ids_sorted(p),
            lo <= hi <= list.len(),
            forall|j: int| 0 <= j < lo ==> p[j].0 < doc,
            forall|j: int| hi <= j < list.len() ==> p[j].0 >= doc,
        decreases hi - lo,
    {
        let mid = lo + (hi - lo) / 2;
        assert(p[mid as int].0 == list[mid as int].doc_id);
        if list[mid].doc_id < doc {
            assert forall|j: int| 0 <= j <= mid implies p[j].0 < doc by {
                assert(p[j].0 <= p[mid as int].0);
            }
            lo = mid + 1;
        } else {
            assert forall|j: int| mid <= j < list.len() implies p[j].0 >= doc by {
                assert(p[mid as int].0 <= p[j].0);
            }
            hi = mid;
        }
    }
    if lo < list.len() && list[lo].doc_id == doc {
        assert(p[lo as int].0 == doc);
        Some(lo)
    } else {
        assert forall|j: int| 0 <= j < p.len() implies p[j].0 != doc by {
            if j >= lo && lo < list.len() {
                assert(p[lo as int].0 == list[lo as int].doc_id);
                assert(p[lo as int].0 <= p[j].0);
            }
        }
        None
    }
}


/// For every list of `decoded` (in order) that holds `doc`: the number of positions of
/// its first entry for `doc`, and the number of entries of the list.
pub open spec fn doc_term_stats(decoded: Seq<Seq<(u32, Seq<u32>)>>, doc: u32) -> Seq<(nat, nat)>
    decreases decoded.len(),
{
    if decoded.len() == 0 {
        seq![]
    } else {
        let rest = doc_term_stats(decoded.drop_last(), doc);
        let l = decoded.last();
        match first_entry(l, doc) {
            Some(k) => rest.push((l[k].1.len(), l.len())),
            None => rest,
        }
    }
}

/// For every list of `decoded` (in order) that holds `doc`: the positions of its first
/// entry for `doc`.
pub open spec fn doc_positions(decoded: Seq<Seq<(u32, Seq<u32>)>>, doc: u32) -> Seq<Seq<u32>>
    decreases decoded.len(),
{
    if decoded.len() == 0 {
        seq![]
    } else {
        let rest = doc_positions(decoded.drop_last(), doc);
        let l = decoded.last();
        match first_entry(l, doc) {
            Some(k) => rest.push(l[k].1),
            None => rest,
        }
    }
}

/// The document ids of every list.
pub open spec fn ids_lists(decoded: Seq<Seq<(u32, Seq<u32>)>>) -> Seq<Seq<u32>> {
    decoded.map_values(|l: Seq<(u32, Seq<u32>)>| posting_ids(l))
}

/// The documents that every list holds: the first list's ids intersected with those
/// of the others, in order.
pub open spec fn common_docs(decoded: Seq<Seq<(u32, Seq<u32>)>>) -> Seq<u32> {
    if decoded.len() == 0 {
        seq![]
    } else {
        intersect_all(ids_lists(decoded)[0], ids_lists(decoded).drop_first())
    }
}

/// What a matching document is scored from: its id, the statistics of every term, and
/// the smallest window holding every term.
pub open spec fn doc_match(decoded: Seq<Seq<(u32, Seq<u32>)>>, doc: u32) -> (u32, Seq<(nat, nat)>, u32) {
    (doc, doc_term_stats(decoded, doc), min_window_result(doc_positions(decoded, doc)).unwrap())
}

/// The matches for the documents of `common` that name one of the `n_docs` documents.
pub open spec fn match_views(decoded: Seq<Seq<(u32, Seq<u32>)>>, common: Seq<u32>, n_docs: nat) -> Seq<
    (u32, Seq<(nat, nat)>, u32),
>
    decreases common.len(),
{
    if common.len() == 0 {
        seq![]
    } else {
        let rest = match_views(decoded, common.drop_last(), n_docs);
        let d = common.last();
        if d < n_docs {
            rest.push(doc_match(decoded, d))
        } else {
            rest
        }
    }
}

/// Every encoded list, decoded.
pub open spec fn decode_all(encs: Seq<Seq<u8>>) -> Seq<Seq<(u32, Seq<u32>)>> {
    encs.map_values(|e: Seq<u8>| decoded_postings(e).unwrap())
}

/// The matches for `tokens` over an index with dictionary `entries`, encoded posting
/// lists `lists` and `n_docs` documents: none when there are no tokens or some token is
/// not in the index; otherwise one per document held by every token's list and known
/// to the document table, in document order.
pub open spec fn document_matches(
    entries: Map<Seq<u8>, u32>,
    lists: Seq<Seq<u8>>,
    n_docs: nat,
    tokens: Seq<Seq<char>>,
) -> Seq<(u32, Seq<(nat, nat)>, u32)> {
    if tokens.len() == 0 {
        seq![]
    } else {
        match term_lists(entries, lists, tokens) {
            None => seq![],
            Some(encs) => match_views(decode_all(encs), common_docs(decode_all(encs)), n_docs),
        }
    }
}

/// A document that holds every query term, with what its score is computed from.
pub struct DocumentMatch {
    pub doc_id: u32,
    /// For every term: (occurrences of the term in the document, documents holding the term).
    pub term_stats: Vec<(usize, usize)>,
    /// Smallest stretch of the document holding every term (0 when none is known).
    pub min_window: u32,
}

impl View for DocumentMatch {
    type V = (u32, Seq<(nat, nat)>, u32);

    open spec fn view(&self) -> (u32, Seq<(nat, nat)>, u32) {
        (
            self.doc_id,
            self.term_stats@.map_values(|t: (usize, usize)| (t.0 as nat, t.1 as nat)),
            self.min_window,
        )
    }
}

/// The views of a vector of matches.
pub open spec fn matches_view(m: Seq<DocumentMatch>) -> Seq<(u32, Seq<(nat, nat)>, u32)> {
    m.map_values(|d: DocumentMatch| d@)
}

/// The views of decoded posting lists.
pub open spec fn decoded_view(v: Seq<Vec<Posting>>) -> Seq<Seq<(u32, Seq<u32>)>> {
    v.map_values(|l: Vec<Posting>| postings_view(l@))
}

/// The match for `doc`: its term statistics and smallest window over the decoded lists;
/// `None` when a window of its positions spans more than `u32::MAX` positions.
pub fn match_document(decoded: &Vec<Vec<Posting>>, doc: u32) -> (m: Option<DocumentMatch>)
    requires
        forall|i: int| 0 <= i < decoded.len() ==> ids_sorted(#[trigger] decoded_view(decoded@)[i]),
    ensures
        min_window_result(doc_positions(decoded_view(decoded@), doc)) is Some ==> (m matches Some(
            x,
        ) && x@ == doc_match(decoded_view(decoded@), doc)),
        min_window_result(doc_positions(decoded_view(decoded@), doc)) is None ==> m is None,
{
    let ghost dv = decoded_view(decoded@);
    let mut stats: Vec<(usize, usize)> = Vec::new();
    let mut term_positions: Vec<Vec<u32>> = Vec::new();
    let mut i: usize = 0;
    while i < decoded.len()
        invariant
            i <= decoded.len(),
            dv == decoded_view(decoded@),
            forall|j: int|
                0 <= j < decoded.len() ==> ids_sorted(#[trigger] dv[j]),
            stats@.map_values(|t: (usize, usize)| (t.0 as nat, t.1 as nat)) == doc_term_stats(
                dv.take(i as int),
                doc,
            ),
            lists_view(term_positions@) == doc_positions(dv.take(i as int), doc),
        decreases decoded.len() - i,
    {
        let ghost pre = dv.take(i + 1);
        assert(pre.drop_last() =~= dv.take(i as int));
        assert(pre.last() == dv[i as int]);
        assert(dv[i as int] == postings_view(decoded[i as int]@));
        assert(ids_sorted(dv[i as int]));
        let list = &decoded[i];
        proof {
            lemma_first_entry(postings_view(list@), doc);
        }
        match find_posting(list, doc) {
            Some(k) => {
                assert(postings_view(list@)[k as int] == list[k as int]@);
                let ghost s0 = stats@.map_values(|t: (usize, usize)| (t.0 as nat, t.1 as nat));
                stats.push((list[k].positions.len(), list.len()));
                assert(stats@.map_values(|t: (usize, usize)| (t.0 as nat, t.1 as nat)) =~= s0.push(
                    (list[k as int].positions@.len(), list@.len()),
                ));
                let ghost p0 = lists_view(term_positions@);
                term_positions.push(copy_ids(&list[k].positions));
                assert(lists_view(term_positions@) =~= p0.push(list[k as int].positions@));
            },
            None => {},
        }
        i += 1;
    }
    assert(dv.take(i as int) =~= dv);
    match try_min_window(&term_positions) {
        Some(min_window) => Some(DocumentMatch { doc_id: doc, term_stats: stats, min_window }),
        None => None,
    }
}


/// All encoded lists of the index are well formed.
pub open spec fn index_well_formed(lists: Seq<Seq<u8>>) -> bool {
    forall|i: int| 0 <= i < lists.len() ==> list_well_formed(#[trigger] lists[i])
}

/// Every list that one of `tokens` reaches through the dictionary is well formed.
pub open spec fn query_lists_well_formed(
    entries: Map<Seq<u8>, u32>,
    lists: Seq<Seq<u8>>,
    tokens: Seq<Seq<char>>,
) -> bool {
    forall|j: int|
        0 <= j < tokens.len() ==> (#[trigger] term_list(entries, lists, tokens[j]) matches Some(l)
            ==> list_well_formed(l))
}

/// The documents that hold every one of `tokens`, each with its term statistics and
/// smallest window; empty when there are no tokens or some token is not in the index.
/// No document that a query matches has a window spanning more than `u32::MAX`
/// positions (where the window search would overflow).
pub open spec fn windows_fit(
    entries: Map<Seq<u8>, u32>,
    lists: Seq<Seq<u8>>,
    n_docs: nat,
    tokens: Seq<Seq<char>>,
) -> bool {
    match term_lists(entries, lists, tokens) {
        Some(encs) => forall|k: int|
            0 <= k < common_docs(decode_all(encs)).len() && common_docs(decode_all(encs))[k]
                < n_docs ==> #[trigger] min_window_result(
                doc_positions(decode_all(encs), common_docs(decode_all(encs))[k]),
            ) is Some,
        None => true,
    }
}

pub fn match_documents(
    tokens: &Vec<String>,
    trie: &Trie<u8, u32>,
    occurrence_lists: &Vec<Vec<u8>>,
    documents: &Vec<DocumentMetadata>,
) -> (result: Option<Vec<DocumentMatch>>)
    requires
        trie_built(*trie),
        query_lists_well_formed(
            trie_entries(*trie),
            lists_view(occurrence_lists@),
            tokens.deep_view(),
        ),
    ensures
        windows_fit(
            trie_entries(*trie),
            lists_view(occurrence_lists@),
            documents.len() as nat,
            tokens.deep_view(),
        ) ==> (result matches Some(matches) && matches_view(matches@) == document_matches(
            trie_entries(*trie),
            lists_view(occurrence_lists@),
            documents.len() as nat,
            tokens.deep_view(),
        )),
        !windows_fit(
            trie_entries(*trie),
            lists_view(occurrence_lists@),
            documents.len() as nat,
            tokens.deep_view(),
        ) ==> result is None,
{
    let ghost entries = trie_entries(*trie);
    let ghost lists = lists_view(occurrence_lists@);
    let ghost toks = tokens.deep_view();
    if tokens.len() == 0 {
        return Some(Vec::new());
    }
    let mut decoded: Vec<Vec<Posting>> = Vec::new();
    let ghost mut encs: Seq<Seq<u8>> = seq![];
    let mut t: usize = 0;
    while t < tokens.len()
        invariant
            t <= tokens.len(),
            tokens.len() > 0,
            decoded.len() == t,
            toks == tokens.deep_view(),
            entries == trie_entries(*trie),
            trie_built(*trie),
            lists == lists_view(occurrence_lists@),
            query_lists_well_formed(entries, lists, toks),
            term_lists(entries, lists, toks.take(t as int)) == Some(encs),
            decoded_view(decoded@) == decode_all(encs),
            forall|j: int|
                0 <= j < decoded.len() ==> ids_sorted(#[trigger] decoded_view(decoded@)[j]),
        decreases tokens.len() - t,
    {
        let ghost pre = toks.take(t + 1);
        assert(pre.drop_last() =~= toks.take(t as int));
        assert(pre.last() == tokens[t as int]@);
        match lookup_term(&tokens[t], trie, occurrence_lists) {
            Some(encoded) => {
                let ghost enc = encoded@;
                assert(list_well_formed(enc)) by {
                    assert(toks[t as int] == tokens[t as int]@);
                    assert(term_list(entries, lists, toks[t as int]) == Some(enc));
                }
                let list = decode_posting_list(encoded.as_slice());
                proof {
                    lemma_decoded_sorted(enc, 0, 0);
                }
                let ghost d0 = decoded_view(decoded@);
                decoded.push(list);
                proof {
                    encs = encs.push(enc);
                    assert(decoded_view(decoded@) =~= d0.push(postings_view(list@)));
                    assert(decode_all(encs) =~= decode_all(encs.drop_last()).push(
                        decoded_postings(enc).unwrap(),
                    ));
                    assert(encs.drop_last() =~= encs.take(encs.len() - 1));
                }
            },
            None => {
                proof {
                    lemma_missing_term(entries, lists, toks, t + 1);
                }
                return Some(Vec::new());
            },
        }
        t += 1;
    }
    assert(toks.take(t as int) =~= toks);
    let ghost dv = decoded_view(decoded@);
    let ghost idl = ids_lists(dv);
    let mut common = posting_doc_ids(&decoded[0]);
    assert(common@ == idl[0]);
    let mut k: usize = 1;
    assert(idl.subrange(1, idl.len() as int) =~= idl.drop_first());
    while k < decoded.len()
        invariant
            1 <= k <= decoded.len(),
            dv == decoded_view(decoded@),
            idl == ids_lists(dv),
            dv.len() == decoded.len(),
            common_docs(dv) == intersect_all(common@, idl.subrange(k as int, idl.len() as int)),
            toks.len() > 0,
            toks == tokens.deep_view(),
            entries == trie_entries(*trie),
            trie_built(*trie),
            lists == lists_view(occurrence_lists@),
            term_lists(entries, lists, toks) == Some(encs),
            dv == decode_all(encs),
        ensures
            k == decoded.len(),
        decreases decoded.len() - k,
    {
        let ghost rest = idl.subrange(k as int, idl.len() as int);
        assert(rest.drop_first() =~= idl.subrange(k + 1, idl.len() as int));
        let other = posting_doc_ids(&decoded[k]);
        assert(rest[0] == other@);
        common = intersect_sorted(common.as_slice(), other.as_slice());
        k += 1;
        if common.len() == 0 {
            proof {
                lemma_intersect_empty(idl.subrange(k as int, idl.len() as int));
                assert(common@ =~= Seq::<u32>::empty());
                assert(common_docs(dv) =~= Seq::<u32>::empty());
                assert(match_views(dv, common_docs(dv), documents.len() as nat) =~= Seq::<
                    (u32, Seq<(nat, nat)>, u32),
                >::empty());
            }
            return Some(Vec::new());
        }
    }
    assert(idl.subrange(k as int, idl.len() as int) =~= Seq::<Seq<u32>>::empty());
    assert(common_docs(dv) == common@);
    let mut matches: Vec<DocumentMatch> = Vec::new();
    let mut c: usize = 0;
    while c < common.len()
        invariant
            c <= common.len(),
            dv == decoded_view(decoded@),
            dv == decode_all(encs),
            term_lists(entries, lists, toks) == Some(encs),
            entries == trie_entries(*trie),
            lists == lists_view(occurrence_lists@),
            toks == tokens.deep_view(),
            common@ == common_docs(dv),
            forall|j: int|
                0 <= j < decoded.len() ==> ids_sorted(#[trigger] decoded_view(decoded@)[j]),
            forall|x: int|
                0 <= x < c && common@[x] < documents.len() ==> #[trigger] min_window_result(
                    doc_positions(dv, common@[x]),
                ) is Some,
            matches_view(matches@) == match_views(
                dv,
                common@.take(c as int),
                documents.len() as nat,
            ),
        decreases common.len() - c,
    {
        let ghost pre = common@.take(c + 1);
        assert(pre.drop_last() =~= common@.take(c as int));
        assert(pre.last() == common@[c as int]);
        let doc_id = common[c];
        if (doc_id as usize) < documents.len() {
            let ghost m0 = matches_view(matches@);
            match match_document(&decoded, doc_id) {
                Some(m) => {
                    matches.push(m);
                    assert(matches_view(matches@) =~= m0.push(doc_match(dv, doc_id)));
                },
                None => {
                    assert(!windows_fit(entries, lists, documents.len() as nat, toks)) by {
                        assert(common_docs(dv)[c as int] == doc_id);
                        assert(min_window_result(doc_positions(dv, common_docs(dv)[c as int])) is None);
                    }
                    return None;
                },
            }
        }
        c += 1;
    }
    assert(common@.take(c as int) =~= common@);
    Some(matches)
}

/// The matches of `match_documents`, after testing that every list the query's tokens
/// reach decodes; `None` when one of them does not, or when a matched document's window
/// spans more than `u32::MAX` positions.
pub fn match_documents_checked(
    tokens: &Vec<String>,
    trie: &Trie<u8, u32>,
    occurrence_lists: &Vec<Vec<u8>>,
    documents: &Vec<DocumentMetadata>,
) -> (result: Option<Vec<DocumentMatch>>)
    requires
        trie_built(*trie),
    ensures
        query_lists_well_formed(
            trie_entries(*trie),
            lists_view(occurrence_lists@),
            tokens.deep_view(),
        ) && windows_fit(
            trie_entries(*trie),
            lists_view(occurrence_lists@),
            documents.len() as nat,
            tokens.deep_view(),
        ) ==> (result matches Some(m) && matches_view(m@) == document_matches(
            trie_entries(*trie),
            lists_view(occurrence_lists@),
            documents.len() as nat,
            tokens.deep_view(),
        )),
        !(query_lists_well_formed(
            trie_entries(*trie),
            lists_view(occurrence_lists@),
            tokens.deep_view(),
        ) && windows_fit(
            trie_entries(*trie),
            lists_view(occurrence_lists@),
            documents.len() as nat,
            tokens.deep_view(),
        )) ==> result is None,
{
    let ghost entries = trie_entries(*trie);
    let ghost lists = lists_view(occurrence_lists@);
    let ghost toks = tokens.deep_view();
    let mut t: usize = 0;
    while t < tokens.len()
        invariant
            t <= tokens.len(),
            toks == tokens.deep_view(),
            entries == trie_entries(*trie),
            trie_built(*trie),
            lists == lists_view(occurrence_lists@),
            forall|j: int|
                0 <= j < t ==> (#[trigger] term_list(entries, lists, toks[j]) matches Some(l)
                    ==> list_well_formed(l)),
        decreases tokens.len() - t,
    {
        assert(toks[t as int] == tokens[t as int]@);
        match lookup_term(&tokens[t], trie, occurrence_lists) {
            Some(encoded) => {
                if !posting_list_well_formed(encoded.as_slice()) {
                    assert(!query_lists_well_formed(entries, lists, toks)) by {
                        assert(term_list(entries, lists, toks[t as int]) == Some(encoded@));
                    }
                    return None;
                }
            },
            None => {},
        }
        t += 1;
    }
    match_documents(tokens, trie, occurrence_lists, documents)
}

proof fn lemma_match_views(decoded: Seq<Seq<(u32, Seq<u32>)>>, common: Seq<u32>, n_docs: nat)
    ensures
        forall|i: int|
            0 <= i < match_views(decoded, common, n_docs).len() ==> common.contains(
                (#[trigger] match_views(decoded, common, n_docs)[i]).0,
            ) && match_views(decoded, common, n_docs)[i].0 < n_docs,
        forall|d: u32|
            #![trigger common.contains(d)]
            (exists|i: int|
                0 <= i < match_views(decoded, common, n_docs).len() && #[trigger] match_views(
                    decoded,
                    common,
                    n_docs,
                )[i].0 == d) <==> common.contains(d) && d < n_docs,
        forall|i: int|
            0 <= i < match_views(decoded, common, n_docs).len() ==> #[trigger] match_views(
                decoded,
                common,
                n_docs,
            )[i] == doc_match(decoded, match_views(decoded, common, n_docs)[i].0),
        is_increasing(common) ==> forall|a: int, b: int|
            0 <= a < b < match_views(decoded, common, n_docs).len() ==> match_views(
                decoded,
                common,
                n_docs,
            )[a].0 < match_views(decoded, common, n_docs)[b].0,
    decreases common.len(),
{
    if common.len() > 0 {
        let pre = common.drop_last();
        let d0 = common.last();
        lemma_match_views(decoded, pre, n_docs);
        let rest = match_views(decoded, pre, n_docs);
        let mv = match_views(decoded, common, n_docs);
        assert forall|x: u32| common.contains(x) <==> pre.contains(x) || x == d0 by {
            if common.contains(x) && x != d0 {
                let k = choose|k: int| 0 <= k < common.len() && common[k] == x;
                assert(pre[k] == x);
            }
            if pre.contains(x) {
                let k = choose|k: int| 0 <= k < pre.len() && pre[k] == x;
                assert(common[k] == x);
            }
            if x == d0 {
                assert(common[common.len() - 1] == x);
            }
        }
        if d0 < n_docs {
            assert(mv == rest.push(doc_match(decoded, d0)));
            assert(mv[mv.len() - 1].0 == d0);
        } else {
            assert(mv == rest);
        }
        assert forall|i: int| 0 <= i < mv.len() implies #[trigger] mv[i] == doc_match(decoded, mv[i].0) by {
            if i < rest.len() {
                assert(mv[i] == rest[i]);
            }
        }
        assert forall|i: int| 0 <= i < mv.len() implies common.contains((#[trigger] mv[i]).0)
            && mv[i].0 < n_docs by {
            if i < rest.len() {
                assert(mv[i] == rest[i]);
                assert(pre.contains(rest[i].0));
            }
        }
        assert forall|d: u32|
            (exists|i: int| 0 <= i < mv.len() && #[trigger] mv[i].0 == d) <==> common.contains(d)
                && d < n_docs by {
            if exists|i: int| 0 <= i < mv.len() && #[trigger] mv[i].0 == d {
                let i = choose|i: int| 0 <= i < mv.len() && #[trigger] mv[i].0 == d;
                if i < rest.len() {
                    assert(mv[i] == rest[i]);
                }
                assert(common.contains(mv[i].0));
            }
            if common.contains(d) && d < n_docs {
                if pre.contains(d) {
                    let i = choose|i: int| 0 <= i < rest.len() && #[trigger] rest[i].0 == d;
                    assert(mv[i] == rest[i]);
                } else {
                    assert(d == d0);
                    assert(mv[mv.len() - 1].0 == d);
                }
            }
        }
        if is_increasing(common) {
            assert(is_increasing(pre));
            assert forall|a: int, b: int| 0 <= a < b < mv.len() implies mv[a].0 < mv[b].0 by {
                assert(mv[a] == rest[a]);
                if b < rest.len() {
                    assert(mv[b] == rest[b]);
                } else {
                    assert(pre.contains(rest[a].0));
                    let k = choose|k: int| 0 <= k < pre.len() && pre[k] == rest[a].0;
                    assert(common[k] == pre[k]);
                }
            }
        }
    }
}

/// The per-list statistics and positions of a document that every list holds.
proof fn lemma_doc_stats(decoded: Seq<Seq<(u32, Seq<u32>)>>, doc: u32)
    requires
        forall|j: int| 0 <= j < decoded.len() ==> #[trigger] first_entry(decoded[j], doc) is Some,
    ensures
        doc_term_stats(decoded, doc).len() == decoded.len(),
        doc_positions(decoded, doc).len() == decoded.len(),
        forall|j: int|
            0 <= j < decoded.len() ==> #[trigger] doc_term_stats(decoded, doc)[j] == (
                decoded[j][first_entry(decoded[j], doc).unwrap()].1.len(),
                decoded[j].len(),
            ),
        forall|j: int|
            0 <= j < decoded.len() ==> #[trigger] doc_positions(decoded, doc)[j] == decoded[j][first_entry(
                decoded[j],
                doc,
            ).unwrap()].1,
    decreases decoded.len(),
{
    if decoded.len() > 0 {
        let pre = decoded.drop_last();
        assert forall|j: int| 0 <= j < pre.len() implies #[trigger] first_entry(pre[j], doc) is Some by {
            assert(pre[j] == decoded[j]);
        }
        lemma_doc_stats(pre, doc);
        let l = decoded.last();
        assert(first_entry(decoded[decoded.len() - 1], doc) is Some);
        let k = first_entry(l, doc).unwrap();
        assert(doc_term_stats(decoded, doc) == doc_term_stats(pre, doc).push((l[k].1.len(), l.len())));
        assert(doc_positions(decoded, doc) == doc_positions(pre, doc).push(l[k].1));
        assert forall|j: int| 0 <= j < decoded.len() implies #[trigger] doc_term_stats(decoded, doc)[j]
            == (decoded[j][first_entry(decoded[j], doc).unwrap()].1.len(), decoded[j].len()) by {
            if j < pre.len() {
                assert(pre[j] == decoded[j]);
            }
        }
        assert forall|j: int| 0 <= j < decoded.len() implies #[trigger] doc_positions(decoded, doc)[j]
            == decoded[j][first_entry(decoded[j], doc).unwrap()].1 by {
            if j < pre.len() {
                assert(pre[j] == decoded[j]);
            }
        }
    }
}

proof fn lemma_intersect_all_increasing(acc: Seq<u32>, rest: Seq<Seq<u32>>)
    requires
        is_increasing(acc),
        forall|i: int| 0 <= i < rest.len() ==> is_increasing(#[trigger] rest[i]),
    ensures
        is_increasing(intersect_all(acc, rest)),
    decreases rest.len(),
{
    if rest.len() > 0 {
        lemma_intersect_sorted(acc, rest[0]);
        let tail = rest.drop_first();
        assert forall|i: int| 0 <= i < tail.len() implies is_increasing(#[trigger] tail[i]) by {
            assert(tail[i] == rest[i + 1]);
        }
        lemma_intersect_all_increasing(intersect_spec(acc, rest[0]), tail);
    }
}

/// The UTF-8 bytes of every token.
pub open spec fn token_keys(tokens: Seq<Seq<char>>) -> Seq<Seq<u8>> {
    tokens.map_values(|t: Seq<char>| encode_utf8(t))
}

/// For every token: how often it occurs in document `doc`, and how many documents hold it.
pub open spec fn token_stats(docs: Seq<Seq<Seq<u8>>>, doc: u32, tokens: Seq<Seq<char>>) -> Seq<
    (nat, nat),
> {
    token_keys(tokens).map_values(
        |key: Seq<u8>| (positions_of(docs[doc as int], key).len(), term_postings(docs, key).len()),
    )
}

/// For every token: its positions in document `doc`.
pub open spec fn token_positions(docs: Seq<Seq<Seq<u8>>>, doc: u32, tokens: Seq<Seq<char>>) -> Seq<
    Seq<u32>,
> {
    token_keys(tokens).map_values(|key: Seq<u8>| positions_of(docs[doc as int], key))
}

/// Document `doc` holds every token.
pub open spec fn holds_all(docs: Seq<Seq<Seq<u8>>>, doc: u32, tokens: Seq<Seq<char>>) -> bool {
    &&& doc < docs.len()
    &&& forall|j: int|
        0 <= j < tokens.len() ==> #[trigger] positions_of(docs[doc as int], token_keys(tokens)[j]).len()
            > 0
}

/// The decoded lists are the postings of the tokens, one per token.
spec fn lists_of_tokens(
    docs: Seq<Seq<Seq<u8>>>,
    dv: Seq<Seq<(u32, Seq<u32>)>>,
    tokens: Seq<Seq<char>>,
) -> bool {
    &&& dv.len() == tokens.len()
    &&& forall|j: int| 0 <= j < tokens.len() ==> #[trigger] dv[j] == term_postings(docs, token_keys(tokens)[j])
}

proof fn lemma_ids_of_postings(docs: Seq<Seq<Seq<u8>>>, key: Seq<u8>)
    requires
        docs.len() <= u32::MAX,
    ensures
        is_increasing(posting_ids(term_postings(docs, key))),
        forall|d: u32|
            #[trigger] posting_ids(term_postings(docs, key)).contains(d) <==> d < docs.len()
                && positions_of(docs[d as int], key).len() > 0,
{
    lemma_term_postings_entries(docs, key);
    lemma_term_postings_docs_below(docs, key);
    let p = term_postings(docs, key);
    let ids = posting_ids(p);
    assert forall|d: u32| #[trigger] ids.contains(d) <==> d < docs.len() && positions_of(
        docs[d as int],
        key,
    ).len() > 0 by {
        if ids.contains(d) {
            let k = choose|k: int| 0 <= k < ids.len() && ids[k] == d;
            assert(p[k].0 == d);
        }
        if d < docs.len() && positions_of(docs[d as int], key).len() > 0 {
            let k = choose|k: int| 0 <= k < p.len() && #[trigger] p[k].0 == d;
            assert(ids[k] == d);
        }
    }
}

/// Over the tokens' postings, the documents every list holds are those holding every
/// token, in increasing order.
proof fn lemma_common_holds(docs: Seq<Seq<Seq<u8>>>, dv: Seq<Seq<(u32, Seq<u32>)>>, tokens: Seq<Seq<char>>)
    requires
        docs.len() <= u32::MAX,
        tokens.len() > 0,
        lists_of_tokens(docs, dv, tokens),
    ensures
        is_increasing(common_docs(dv)),
        forall|d: u32| #[trigger] common_docs(dv).contains(d) <==> holds_all(docs, d, tokens),
{
    let keys = token_keys(tokens);
    let idl = ids_lists(dv);
    assert forall|j: int| 0 <= j < tokens.len() implies is_increasing(#[trigger] idl[j]) && (forall|
        d: u32,
    | #[trigger] idl[j].contains(d) <==> d < docs.len() && positions_of(docs[d as int], keys[j]).len()
        > 0) by {
        lemma_ids_of_postings(docs, keys[j]);
        assert(idl[j] == posting_ids(dv[j]));
    }
    let tail = idl.drop_first();
    assert forall|i: int| 0 <= i < tail.len() implies is_increasing(#[trigger] tail[i])
        && is_nondecreasing(tail[i]) by {
        assert(tail[i] == idl[i + 1]);
    }
    assert(is_nondecreasing(idl[0]));
    lemma_intersect_all_and(idl[0], tail);
    lemma_intersect_all_increasing(idl[0], tail);
    let common = common_docs(dv);
    assert(common == intersect_all(idl[0], tail));
    assert forall|d: u32| #[trigger] common.contains(d) <==> holds_all(docs, d, tokens) by {
        if common.contains(d) {
            assert(idl[0].contains(d));
            assert forall|j: int| 0 <= j < tokens.len() implies #[trigger] positions_of(
                docs[d as int],
                token_keys(tokens)[j],
            ).len() > 0 by {
                if j > 0 {
                    assert(tail[j - 1] == idl[j]);
                    assert(tail[j - 1].contains(d));
                }
                assert(idl[j].contains(d));
            }
        }
        if holds_all(docs, d, tokens) {
            assert(positions_of(docs[d as int], keys[0]).len() > 0);
            assert(idl[0].contains(d));
            assert forall|i: int| 0 <= i < tail.len() implies #[trigger] tail[i].contains(d) by {
                assert(tail[i] == idl[i + 1]);
                assert(positions_of(docs[d as int], keys[i + 1]).len() > 0);
            }
        }
    }
}

/// For a document holding every token, what it is scored from.
proof fn lemma_match_of_holder(
    docs: Seq<Seq<Seq<u8>>>,
    dv: Seq<Seq<(u32, Seq<u32>)>>,
    tokens: Seq<Seq<char>>,
    d: u32,
)
    requires
        docs.len() <= u32::MAX,
        lists_of_tokens(docs, dv, tokens),
        holds_all(docs, d, tokens),
    ensures
        doc_match(dv, d).1 == token_stats(docs, d, tokens),
        doc_match(dv, d).2 == min_window_result(token_positions(docs, d, tokens)).unwrap(),
{
    let keys = token_keys(tokens);
    assert forall|j: int| 0 <= j < dv.len() implies #[trigger] first_entry(dv[j], d) is Some
        && dv[j][first_entry(dv[j], d).unwrap()].1 == positions_of(docs[d as int], keys[j]) by {
        lemma_first_entry(dv[j], d);
        lemma_term_postings_entries(docs, keys[j]);
        assert(positions_of(docs[d as int], keys[j]).len() > 0);
        let k = choose|k: int|
            0 <= k < term_postings(docs, keys[j]).len() && #[trigger] term_postings(docs, keys[j])[k].0
                == d;
        assert(dv[j][k].0 == d);
    }
    lemma_doc_stats(dv, d);
    assert(doc_term_stats(dv, d) =~= token_stats(docs, d, tokens));
    assert(doc_positions(dv, d) =~= token_positions(docs, d, tokens));
}

/// When every token is in the dictionary, the lists a query reads decode to the tokens'
/// postings.
proof fn lemma_found_lists(
    docs: Seq<Seq<Seq<u8>>>,
    entries: Map<Seq<u8>, u32>,
    lists: Seq<Seq<u8>>,
    tokens: Seq<Seq<char>>,
)
    requires
        forall|key: Seq<u8>|
            #[trigger] trie_lookup(entries, key) matches Some(n) ==> n < lists.len()
                && decoded_postings(lists[n as int]) == Some(term_postings(docs, key)),
        forall|j: int|
            0 <= j < tokens.len() ==> #[trigger] trie_lookup(entries, token_keys(tokens)[j]) is Some,
    ensures
        term_lists(entries, lists, tokens) is Some,
        lists_of_tokens(docs, decode_all(term_lists(entries, lists, tokens).unwrap()), tokens),
{
    let keys = token_keys(tokens);
    lemma_term_lists_shape(entries, lists, tokens);
    assert forall|j: int| 0 <= j < tokens.len() implies #[trigger] term_list(entries, lists, tokens[j])
        == Some(lists[trie_lookup(entries, keys[j]).unwrap() as int]) by {
        assert(keys[j] == encode_utf8(tokens[j]));
        assert(trie_lookup(entries, keys[j]) is Some);
    }
    let encs = term_lists(entries, lists, tokens).unwrap();
    let dv = decode_all(encs);
    assert forall|j: int| 0 <= j < tokens.len() implies #[trigger] dv[j] == term_postings(docs, keys[j])
        by {
        let n = trie_lookup(entries, keys[j]).unwrap();
        assert(term_list(entries, lists, tokens[j]) == Some(encs[j]));
        assert(encs[j] == lists[n as int]);
    }
}

/// When some token is not in the dictionary, the query reads no lists and no document
/// holds every token.
proof fn lemma_missing_token(
    docs: Seq<Seq<Seq<u8>>>,
    entries: Map<Seq<u8>, u32>,
    lists: Seq<Seq<u8>>,
    tokens: Seq<Seq<char>>,
    j0: int,
)
    requires
        docs.len() <= u32::MAX,
        forall|key: Seq<u8>|
            key.len() > 0 ==> (#[trigger] trie_lookup(entries, key) is Some <==> term_postings(
                docs,
                key,
            ).len() > 0),
        0 <= j0 < tokens.len(),
        tokens[j0].len() > 0,
        trie_lookup(entries, token_keys(tokens)[j0]) is None,
    ensures
        term_lists(entries, lists, tokens) is None,
        forall|d: u32| !#[trigger] holds_all(docs, d, tokens),
{
    let keys = token_keys(tokens);
    lemma_term_lists_shape(entries, lists, tokens);
    lemma_encode_nonempty(tokens[j0]);
    assert(keys[j0] == encode_utf8(tokens[j0]));
    assert(term_list(entries, lists, tokens[j0]) is None);
    lemma_term_postings_entries(docs, keys[j0]);
    assert forall|d: u32| !#[trigger] holds_all(docs, d, tokens) by {
        if holds_all(docs, d, tokens) {
            assert(positions_of(docs[d as int], keys[j0]).len() > 0);
            let k = choose|k: int|
                0 <= k < term_postings(docs, keys[j0]).len() && #[trigger] term_postings(
                    docs,
                    keys[j0],
                )[k].0 == d;
        }
    }
}

/// An index written from documents `docs` (as `IndexBuilder::finish` states it: its
/// dictionary holds exactly the keys that occur in some document, and the list of each
/// key decodes to that key's postings) answers a query of non-empty tokens with exactly
/// the documents of the document table that hold every token, in increasing order; for
/// each, the statistics of every token are its number of occurrences in the document
/// and the number of documents that hold it, and the window is the smallest one over
/// the tokens' positions in the document.
pub proof fn lemma_built_index_answers(
    docs: Seq<Seq<Seq<u8>>>,
    entries: Map<Seq<u8>, u32>,
    lists: Seq<Seq<u8>>,
    n_docs: nat,
    tokens: Seq<Seq<char>>,
)
    requires
        docs.len() <= u32::MAX,
        forall|key: Seq<u8>|
            key.len() > 0 ==> (#[trigger] trie_lookup(entries, key) is Some <==> term_postings(
                docs,
                key,
            ).len() > 0),
        forall|key: Seq<u8>|
            #[trigger] trie_lookup(entries, key) matches Some(n) ==> n < lists.len()
                && decoded_postings(lists[n as int]) == Some(term_postings(docs, key)),
        forall|j: int| 0 <= j < tokens.len() ==> (#[trigger] tokens[j]).len() > 0,
    ensures
        ({
            let result = document_matches(entries, lists, n_docs, tokens);
            &&& forall|i: int|
                0 <= i < result.len() ==> {
                    let m = #[trigger] result[i];
                    &&& tokens.len() > 0
                    &&& m.0 < n_docs
                    &&& holds_all(docs, m.0, tokens)
                    &&& m.1 == token_stats(docs, m.0, tokens)
                    &&& m.2 == min_window_result(token_positions(docs, m.0, tokens)).unwrap()
                }
            &&& forall|d: u32|
                tokens.len() > 0 && d < n_docs && #[trigger] holds_all(docs, d, tokens) ==> exists|
                    i: int,
                | 0 <= i < result.len() && #[trigger] result[i].0 == d
            &&& forall|a: int, b: int| 0 <= a < b < result.len() ==> result[a].0 < result[b].0
        }),
{
    let keys = token_keys(tokens);
    let result = document_matches(entries, lists, n_docs, tokens);
    if tokens.len() == 0 {
        assert(result.len() == 0);
        return;
    }
    if exists|j: int| 0 <= j < tokens.len() && #[trigger] trie_lookup(entries, keys[j]) is None {
        let j0 = choose|j: int| 0 <= j < tokens.len() && #[trigger] trie_lookup(entries, keys[j]) is None;
        lemma_missing_token(docs, entries, lists, tokens, j0);
        assert(result.len() == 0);
        return;
    }
    lemma_found_lists(docs, entries, lists, tokens);
    let dv = decode_all(term_lists(entries, lists, tokens).unwrap());
    assert(result == match_views(dv, common_docs(dv), n_docs));
    lemma_answers_from_lists(docs, dv, n_docs, tokens);
}

/// Over the tokens' postings, the matches are those of the documents holding every
/// token, in increasing order, each scored from the documents themselves.
proof fn lemma_answers_from_lists(
    docs: Seq<Seq<Seq<u8>>>,
    dv: Seq<Seq<(u32, Seq<u32>)>>,
    n_docs: nat,
    tokens: Seq<Seq<char>>,
)
    requires
        docs.len() <= u32::MAX,
        tokens.len() > 0,
        lists_of_tokens(docs, dv, tokens),
    ensures
        ({
            let result = match_views(dv, common_docs(dv), n_docs);
            &&& forall|i: int|
                0 <= i < result.len() ==> {
                    let m = #[trigger] result[i];
                    &&& tokens.len() > 0
                    &&& m.0 < n_docs
                    &&& holds_all(docs, m.0, tokens)
                    &&& m.1 == token_stats(docs, m.0, tokens)
                    &&& m.2 == min_window_result(token_positions(docs, m.0, tokens)).unwrap()
                }
            &&& forall|d: u32|
                tokens.len() > 0 && d < n_docs && #[trigger] holds_all(docs, d, tokens) ==> exists|
                    i: int,
                | 0 <= i < result.len() && #[trigger] result[i].0 == d
            &&& forall|a: int, b: int| 0 <= a < b < result.len() ==> result[a].0 < result[b].0
        }),
{
    lemma_common_holds(docs, dv, tokens);
    let common = common_docs(dv);
    lemma_match_views(dv, common, n_docs);
    let result = match_views(dv, common, n_docs);
    assert forall|i: int| 0 <= i < result.len() implies {
        let m = #[trigger] result[i];
        &&& tokens.len() > 0
        &&& m.0 < n_docs
        &&& holds_all(docs, m.0, tokens)
        &&& m.1 == token_stats(docs, m.0, tokens)
        &&& m.2 == min_window_result(token_positions(docs, m.0, tokens)).unwrap()
    } by {
        let d = result[i].0;
        assert(common.contains(d) && d < n_docs);
        lemma_match_of_holder(docs, dv, tokens, d);
    }
    assert forall|d: u32| tokens.len() > 0 && d < n_docs && #[trigger] holds_all(docs, d, tokens) implies exists|
        i: int,
    | 0 <= i < result.len() && #[trigger] result[i].0 == d by {
        assert(common.contains(d));
    }
}

/// With every list sorted by document, the documents all lists hold are those that
/// every list's ids hold.
proof fn lemma_common_docs_members(dv: Seq<Seq<(u32, Seq<u32>)>>)
    requires
        forall|j: int| 0 <= j < dv.len() ==> ids_sorted(#[trigger] dv[j]),
    ensures
        forall|d: u32|
            #[trigger] common_docs(dv).contains(d) <==> dv.len() > 0 && (forall|j: int|
                0 <= j < dv.len() ==> #[trigger] ids_lists(dv)[j].contains(d)),
{
    if dv.len() > 0 {
        let idl = ids_lists(dv);
        assert forall|j: int| 0 <= j < idl.len() implies is_nondecreasing(#[trigger] idl[j]) by {
            assert(idl[j] == posting_ids(dv[j]));
            assert(ids_sorted(dv[j]));
        }
        let tail = idl.drop_first();
        assert forall|i: int| 0 <= i < tail.len() implies is_nondecreasing(#[trigger] tail[i]) by {
            assert(tail[i] == idl[i + 1]);
        }
        lemma_intersect_all_and(idl[0], tail);
        assert forall|d: u32| #[trigger] common_docs(dv).contains(d) <==> (forall|j: int|
            0 <= j < dv.len() ==> #[trigger] idl[j].contains(d)) by {
            if common_docs(dv).contains(d) {
                assert forall|j: int| 0 <= j < dv.len() implies #[trigger] idl[j].contains(d) by {
                    if j > 0 {
                        assert(tail[j - 1] == idl[j]);
                    }
                }
            }
            if forall|j: int| 0 <= j < dv.len() ==> #[trigger] idl[j].contains(d) {
                assert(idl[0].contains(d));
                assert forall|i: int| 0 <= i < tail.len() implies #[trigger] tail[i].contains(d) by {
                    assert(tail[i] == idl[i + 1]);
                }
            }
        }
    }
}

/// The lists that the tokens reach decode to lists sorted by document.
proof fn lemma_reached_lists_sorted(
    entries: Map<Seq<u8>, u32>,
    lists: Seq<Seq<u8>>,
    tokens: Seq<Seq<char>>,
)
    requires
        query_lists_well_formed(entries, lists, tokens),
        term_lists(entries, lists, tokens) is Some,
    ensures
        forall|j: int|
            0 <= j < decode_all(term_lists(entries, lists, tokens).unwrap()).len() ==> ids_sorted(
                #[trigger] decode_all(term_lists(entries, lists, tokens).unwrap())[j],
            ),
        decode_all(term_lists(entries, lists, tokens).unwrap()).len() == tokens.len(),
{
    lemma_term_lists_shape(entries, lists, tokens);
    let encs = term_lists(entries, lists, tokens).unwrap();
    let dv = decode_all(encs);
    assert forall|j: int| 0 <= j < dv.len() implies ids_sorted(#[trigger] dv[j]) by {
        assert(term_list(entries, lists, tokens[j]) == Some(encs[j]));
        assert(list_well_formed(encs[j]));
        lemma_decoded_sorted(encs[j], 0, 0);
    }
}

/// When the lists of `first` followed by `more` all exist, those of `first` exist too
/// and are their first ones.
proof fn lemma_prefix_lists(
    entries: Map<Seq<u8>, u32>,
    lists: Seq<Seq<u8>>,
    first: Seq<Seq<char>>,
    more: Seq<Seq<char>>,
)
    requires
        query_lists_well_formed(entries, lists, first + more),
        term_lists(entries, lists, first + more) is Some,
    ensures
        term_lists(entries, lists, first) is Some,
        query_lists_well_formed(entries, lists, first),
        forall|j: int|
            0 <= j < first.len() ==> #[trigger] decode_all(term_lists(entries, lists, first).unwrap())[j]
                == decode_all(term_lists(entries, lists, first + more).unwrap())[j],
{
    let all = first + more;
    lemma_term_lists_shape(entries, lists, all);
    lemma_term_lists_shape(entries, lists, first);
    let ea = term_lists(entries, lists, all).unwrap();
    assert forall|j: int| 0 <= j < first.len() implies #[trigger] term_list(entries, lists, first[j])
        == Some(ea[j]) by {
        assert(all[j] == first[j]);
    }
    let ef = term_lists(entries, lists, first).unwrap();
    assert forall|j: int| 0 <= j < first.len() implies (#[trigger] term_list(
        entries,
        lists,
        first[j],
    ) matches Some(l) ==> list_well_formed(l)) by {
        assert(all[j] == first[j]);
        assert(term_list(entries, lists, all[j]) matches Some(l) ==> list_well_formed(l));
    }
    assert forall|j: int| 0 <= j < first.len() implies #[trigger] decode_all(ef)[j] == decode_all(ea)[j] by {
        assert(term_list(entries, lists, first[j]) == Some(ef[j]));
    }
}

/// A document that all lists of `da` hold is held by all lists of its non-empty prefix `df`.
proof fn lemma_common_of_prefix(da: Seq<Seq<(u32, Seq<u32>)>>, df: Seq<Seq<(u32, Seq<u32>)>>, d: u32)
    requires
        0 < df.len() <= da.len(),
        forall|j: int| 0 <= j < df.len() ==> #[trigger] df[j] == da[j],
        forall|j: int| 0 <= j < da.len() ==> ids_sorted(#[trigger] da[j]),
        common_docs(da).contains(d),
    ensures
        common_docs(df).contains(d),
{
    assert forall|j: int| 0 <= j < df.len() implies ids_sorted(#[trigger] df[j]) by {
        assert(df[j] == da[j]);
    }
    lemma_common_docs_members(da);
    lemma_common_docs_members(df);
    assert forall|j: int| 0 <= j < df.len() implies #[trigger] ids_lists(df)[j].contains(d) by {
        assert(ids_lists(da)[j].contains(d));
        assert(ids_lists(df)[j] == posting_ids(df[j]));
        assert(ids_lists(da)[j] == posting_ids(da[j]));
    }
}

/// Some match is for document `d`.
pub open spec fn matches_doc(m: Seq<(u32, Seq<(nat, nat)>, u32)>, d: u32) -> bool {
    exists|k: int| 0 <= k < m.len() && #[trigger] m[k].0 == d
}

/// Adding query tokens never adds a document: every document matched for `first`
/// followed by `more` is matched for `first` alone, when `first` is not empty and the
/// lists that the tokens reach are well formed.
pub proof fn lemma_more_tokens_fewer_matches(
    entries: Map<Seq<u8>, u32>,
    lists: Seq<Seq<u8>>,
    n_docs: nat,
    first: Seq<Seq<char>>,
    more: Seq<Seq<char>>,
)
    requires
        first.len() > 0,
        query_lists_well_formed(entries, lists, first + more),
    ensures
        forall|i: int|
            0 <= i < document_matches(entries, lists, n_docs, first + more).len() ==> matches_doc(
                document_matches(entries, lists, n_docs, first),
                (#[trigger] document_matches(entries, lists, n_docs, first + more)[i]).0,
            ),
{
    let all = first + more;
    let big = document_matches(entries, lists, n_docs, all);
    let small = document_matches(entries, lists, n_docs, first);
    if term_lists(entries, lists, all) is None {
        assert(big.len() == 0);
        return;
    }
    lemma_prefix_lists(entries, lists, first, more);
    lemma_reached_lists_sorted(entries, lists, all);
    lemma_reached_lists_sorted(entries, lists, first);
    let da = decode_all(term_lists(entries, lists, all).unwrap());
    let df = decode_all(term_lists(entries, lists, first).unwrap());
    assert(all.len() > 0);
    lemma_match_views(da, common_docs(da), n_docs);
    lemma_match_views(df, common_docs(df), n_docs);
    assert(big == match_views(da, common_docs(da), n_docs));
    assert(small == match_views(df, common_docs(df), n_docs));
    assert forall|i: int| 0 <= i < big.len() implies matches_doc(small, (#[trigger] big[i]).0) by {
        let d = big[i].0;
        assert(common_docs(da).contains(d));
        lemma_common_of_prefix(da, df, d);
        assert(common_docs(df).contains(d));
    }
}

} // verus!

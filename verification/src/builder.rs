//! Building the index: per-term posting lists collected document by document, then
//! written in the compact format with a term dictionary.

use vstd::prelude::*;
use vstd::slice::slice_to_vec;
use vstd::utf8::encode_utf8;
use crate::codec::{
    Posting, decoded_postings, encode_posting_list, entries_below_max, is_nondecreasing,
    lemma_decode_inverts_encode, list_well_formed, postings_encodable, postings_view,
};
use crate::trie::{
    builder_entries, trie_builder_build, trie_builder_new, trie_builder_push, trie_built,
    trie_entries,
    trie_lookup,
};
use crate::window::lists_view;
use trie_rs::map::Trie;
use crate::ranking::{decoded_view, index_well_formed};

verus! {

/// `a` sorts before `b` in byte-wise lexicographic order.
pub open spec fn lex_lt(a: Seq<u8>, b: Seq<u8>) -> bool
    decreases a.len(),
{
    if a.len() == 0 {
        b.len() > 0
    } else if b.len() == 0 {
        false
    } else if a[0] != b[0] {
        a[0] < b[0]
    } else {
        lex_lt(a.drop_first(), b.drop_first())
    }
}

/// No byte string sorts before itself.
pub proof fn lemma_lex_irreflexive(a: Seq<u8>)
    ensures
        !lex_lt(a, a),
    decreases a.len(),
{
    if a.len() > 0 {
        lemma_lex_irreflexive(a.drop_first());
    }
}

/// Byte-wise order is transitive.
pub proof fn lemma_lex_trans(a: Seq<u8>, b: Seq<u8>, c: Seq<u8>)
    requires
        lex_lt(a, b),
        lex_lt(b, c),
    ensures
        lex_lt(a, c),
    decreases a.len(),
{
    if a.len() > 0 && b.len() > 0 && c.len() > 0 {
        if a[0] == b[0] && b[0] == c[0] {
            lemma_lex_trans(a.drop_first(), b.drop_first(), c.drop_first());
        }
    }
}

/// Of two different byte strings, one sorts before the other.
pub proof fn lemma_lex_total(a: Seq<u8>, b: Seq<u8>)
    ensures
        a == b || lex_lt(a, b) || lex_lt(b, a),
    decreases a.len(),
{
    if a.len() > 0 && b.len() > 0 {
        if a[0] == b[0] {
            lemma_lex_total(a.drop_first(), b.drop_first());
            if a.drop_first() == b.drop_first() {
                assert(a =~= seq![a[0]] + a.drop_first());
                assert(b =~= seq![b[0]] + b.drop_first());
            }
        }
    } else if a.len() == 0 && b.len() == 0 {
        assert(a =~= b);
    }
}

/// Byte-wise order is asymmetric.
pub proof fn lemma_lex_asym(a: Seq<u8>, b: Seq<u8>)
    requires
        lex_lt(a, b),
    ensures
        !lex_lt(b, a),
        a != b,
{
    lemma_lex_irreflexive(a);
    if lex_lt(b, a) {
        lemma_lex_trans(a, b, a);
    }
}

/// Result of comparing two byte strings.
pub enum ByteOrder {
    Less,
    Equal,
    Greater,
}

/// Byte-wise lexicographic comparison.
pub fn compare_bytes(a: &[u8], b: &[u8]) -> (o: ByteOrder)
    ensures
        o is Less <==> lex_lt(a@, b@),
        o is Equal <==> a@ == b@,
        o is Greater <==> lex_lt(b@, a@),
{
    proof {
        lemma_lex_total(a@, b@);
        lemma_lex_irreflexive(a@);
        if lex_lt(a@, b@) {
            lemma_lex_asym(a@, b@);
        }
        if lex_lt(b@, a@) {
            lemma_lex_asym(b@, a@);
        }
    }
    let mut i: usize = 0;
    assert(a@.skip(0) =~= a@ && b@.skip(0) =~= b@);
    while i < a.len() && i < b.len()
        invariant
            i <= a.len(),
            i <= b.len(),
            lex_lt(a@, b@) == lex_lt(a@.skip(i as int), b@.skip(i as int)),
            lex_lt(b@, a@) == lex_lt(b@.skip(i as int), a@.skip(i as int)),
            (a@ == b@) == (a@.skip(i as int) == b@.skip(i as int)),
        decreases a.len() - i,
    {
        let ghost sa = a@.skip(i as int);
        let ghost sb = b@.skip(i as int);
        assert(sa[0] == a@[i as int] && sb[0] == b@[i as int]);
        if a[i] < b[i] {
            assert(sa != sb);
            return ByteOrder::Less;
        } else if a[i] > b[i] {
            assert(sa != sb);
            return ByteOrder::Greater;
        }
        assert(sa.drop_first() =~= a@.skip(i + 1));
        assert(sb.drop_first() =~= b@.skip(i + 1));
        assert((sa == sb) == (sa.drop_first() == sb.drop_first())) by {
            if sa.drop_first() == sb.drop_first() {
                assert(sa =~= seq![sa[0]] + sa.drop_first());
                assert(sb =~= seq![sb[0]] + sb.drop_first());
            }
        }
        i += 1;
    }
    let ghost sa = a@.skip(i as int);
    let ghost sb = b@.skip(i as int);
    if a.len() == b.len() {
        assert(sa =~= sb);
        ByteOrder::Equal
    } else if a.len() < b.len() {
        assert(sa.len() == 0 && sb.len() > 0);
        assert(sa != sb);
        ByteOrder::Less
    } else {
        assert(sb.len() == 0 && sa.len() > 0);
        assert(sa != sb);
        ByteOrder::Greater
    }
}

/// The byte strings are strictly increasing.
pub open spec fn strictly_sorted(terms: Seq<Seq<u8>>) -> bool {
    forall|i: int, j: int| 0 <= i < j < terms.len() ==> lex_lt(terms[i], terms[j])
}

/// The byte strings held by a vector of byte vectors.
pub open spec fn bytes_view(v: Seq<Vec<u8>>) -> Seq<Seq<u8>> {
    v.map_values(|b: Vec<u8>| b@)
}

/// Where `key` stands among sorted `terms`: the first index whose term does not sort
/// before `key`, and whether that term is `key`.
pub fn locate(terms: &Vec<Vec<u8>>, key: &[u8]) -> (r: (bool, usize))
    requires
        strictly_sorted(bytes_view(terms@)),
    ensures
        r.1 <= terms.len(),
        forall|i: int| 0 <= i < r.1 ==> lex_lt(#[trigger] bytes_view(terms@)[i], key@),
        forall|i: int| r.1 <= i < terms.len() ==> !lex_lt(#[trigger] bytes_view(terms@)[i], key@),
        r.0 <==> exists|i: int| 0 <= i < terms.len() && #[trigger] bytes_view(terms@)[i] == key@,
        r.0 ==> r.1 < terms.len() && bytes_view(terms@)[r.1 as int] == key@,
        !r.0 ==> forall|i: int| r.1 <= i < terms.len() ==> lex_lt(key@, #[trigger] bytes_view(terms@)[i]),
{
    let ghost t = bytes_view(terms@);
    let mut lo: usize = 0;
    let mut hi: usize = terms.len();
    while lo < hi
        invariant
            t == bytes_view(terms@),
            strictly_sorted(t),
            lo <= hi <= terms.len(),
            forall|i: int| 0 <= i < lo ==> lex_lt(#[trigger] t[i], key@),
            forall|i: int| hi <= i < terms.len() ==> !lex_lt(#[trigger] t[i], key@),
        decreases hi - lo,
    {
        let mid = lo + (hi - lo) / 2;
        assert(t[mid as int] == terms[mid as int]@);
        match compare_bytes(terms[mid].as_slice(), key) {
            ByteOrder::Less => {
                assert forall|i: int| 0 <= i <= mid implies lex_lt(#[trigger] t[i], key@) by {
                    if i < mid {
                        lemma_lex_trans(t[i], t[mid as int], key@);
                    }
                }
                lo = mid + 1;
            },
            _ => {
                assert forall|i: int| mid <= i < terms.len() implies !lex_lt(#[trigger] t[i], key@) by {
                    if i > mid {
                        if lex_lt(t[i], key@) {
                            lemma_lex_total(t[mid as int], key@);
                            if lex_lt(key@, t[mid as int]) {
                                lemma_lex_trans(t[mid as int], t[i], key@);
                                lemma_lex_trans(key@, t[mid as int], key@);
                                lemma_lex_irreflexive(key@);
                            } else {
                                lemma_lex_irreflexive(key@);
                                lemma_lex_trans(key@, t[i], key@);
                            }
                        }
                    }
                }
                hi = mid;
            },
        }
    }
    proof {
        assert forall|i: int| lo <= i < terms.len() && t[i] != key@ implies lex_lt(key@, #[trigger] t[i]) by {
            lemma_lex_total(t[i], key@);
        }
        assert forall|i: int| 0 <= i < lo implies #[trigger] t[i] != key@ by {
            lemma_lex_irreflexive(key@);
        }
    }
    if lo < terms.len() {
        assert(t[lo as int] == terms[lo as int]@);
        match compare_bytes(terms[lo].as_slice(), key) {
            ByteOrder::Equal => {
                return (true, lo);
            },
            _ => {
                assert forall|i: int| lo <= i < terms.len() implies #[trigger] t[i] != key@ by {
                    if i > lo {
                        lemma_lex_trans(key@, t[lo as int], t[i]);
                        lemma_lex_asym(key@, t[i]);
                    } else {
                        lemma_lex_total(t[lo as int], key@);
                    }
                }
                assert forall|i: int| lo <= i < terms.len() implies lex_lt(key@, #[trigger] t[i]) by {
                    lemma_lex_total(t[i], key@);
                }
                return (false, lo);
            },
        }
    }
    (false, lo)
}


/// Positions (token indexes) at which `key` occurs in a document's tokens.
pub open spec fn positions_of(tokens: Seq<Seq<u8>>, key: Seq<u8>) -> Seq<u32>
    decreases tokens.len(),
{
    if tokens.len() == 0 {
        seq![]
    } else {
        let r = positions_of(tokens.drop_last(), key);
        if tokens.last() == key {
            r.push((tokens.len() - 1) as u32)
        } else {
            r
        }
    }
}

/// The posting list of `key` over documents given as token sequences: one entry per
/// document (numbered by its place) that holds `key`, with the positions of `key` there.
pub open spec fn term_postings(docs: Seq<Seq<Seq<u8>>>, key: Seq<u8>) -> Seq<(u32, Seq<u32>)>
    decreases docs.len(),
{
    if docs.len() == 0 {
        seq![]
    } else {
        let r = term_postings(docs.drop_last(), key);
        let ps = positions_of(docs.last(), key);
        if ps.len() > 0 {
            r.push(((docs.len() - 1) as u32, ps))
        } else {
            r
        }
    }
}

/// The token bytes of a document.
pub open spec fn doc_keys(tokens: Seq<Seq<char>>) -> Seq<Seq<u8>> {
    tokens.map_values(|t: Seq<char>| encode_utf8(t))
}

/// The terms, their posting lists and the documents agree: terms are strictly sorted
/// and non-empty, each list is the posting list of its term, and every key that occurs
/// in a document is a term.
pub open spec fn builder_state_ok(
    terms: Seq<Seq<u8>>,
    lists: Seq<Seq<(u32, Seq<u32>)>>,
    docs: Seq<Seq<Seq<u8>>>,
) -> bool {
    &&& terms.len() == lists.len()
    &&& strictly_sorted(terms)
    &&& forall|i: int| 0 <= i < terms.len() ==> #[trigger] lists[i] == term_postings(docs, terms[i])
    &&& forall|i: int| 0 <= i < terms.len() ==> (#[trigger] terms[i]).len() > 0
    &&& forall|i: int| 0 <= i < terms.len() ==> (#[trigger] lists[i]).len() > 0
    &&& forall|key: Seq<u8>|
        (#[trigger] term_postings(docs, key)).len() > 0 ==> exists|i: int|
            0 <= i < terms.len() && terms[i] == key
}

proof fn lemma_positions_below(tokens: Seq<Seq<u8>>, key: Seq<u8>)
    requires
        tokens.len() <= u32::MAX,
    ensures
        forall|k: int|
            0 <= k < positions_of(tokens, key).len() ==> #[trigger] positions_of(tokens, key)[k]
                < tokens.len(),
        forall|a: int, b: int|
            0 <= a < b < positions_of(tokens, key).len() ==> positions_of(tokens, key)[a]
                < positions_of(tokens, key)[b],
        positions_of(tokens, key).len() <= tokens.len(),
    decreases tokens.len(),
{
    if tokens.len() > 0 {
        lemma_positions_below(tokens.drop_last(), key);
    }
}

/// A term's posting list names documents below the count, in increasing order.
pub(crate) proof fn lemma_term_postings_docs_below(docs: Seq<Seq<Seq<u8>>>, key: Seq<u8>)
    requires
        docs.len() <= 0x1_0000_0000,
    ensures
        forall|k: int|
            0 <= k < term_postings(docs, key).len() ==> (#[trigger] term_postings(docs, key)[k]).0
                < docs.len(),
        forall|a: int, b: int|
            0 <= a < b < term_postings(docs, key).len() ==> term_postings(docs, key)[a].0
                < term_postings(docs, key)[b].0,
    decreases docs.len(),
{
    if docs.len() > 0 {
        let pre = docs.drop_last();
        lemma_term_postings_docs_below(pre, key);
        let r = term_postings(pre, key);
        let out = term_postings(docs, key);
        let ps = positions_of(docs.last(), key);
        if ps.len() > 0 {
            assert(out == r.push(((docs.len() - 1) as u32, ps)));
            assert(((docs.len() - 1) as u32) as int == docs.len() - 1);
            assert forall|k: int| 0 <= k < out.len() implies (#[trigger] out[k]).0 < docs.len() by {
                if k < r.len() {
                    assert(out[k] == r[k]);
                }
            }
            assert forall|a: int, b: int| 0 <= a < b < out.len() implies out[a].0 < out[b].0 by {
                assert(out[a] == r[a]);
                if b < r.len() {
                    assert(out[b] == r[b]);
                }
            }
        }
    }
}

/// What a term's posting list says of the documents: every entry names a document that
/// holds the term, with exactly the term's positions there, and a document is named
/// when and only when it holds the term.
pub(crate) proof fn lemma_term_postings_entries(docs: Seq<Seq<Seq<u8>>>, key: Seq<u8>)
    requires
        docs.len() <= u32::MAX,
    ensures
        forall|k: int|
            0 <= k < term_postings(docs, key).len() ==> (#[trigger] term_postings(docs, key)[k]).0
                < docs.len() && term_postings(docs, key)[k].1 == positions_of(
                docs[term_postings(docs, key)[k].0 as int],
                key,
            ),
        forall|d: u32|
            (exists|k: int|
                0 <= k < term_postings(docs, key).len() && #[trigger] term_postings(docs, key)[k].0
                    == d) <==> (d < docs.len() && #[trigger] positions_of(docs[d as int], key).len()
                > 0),
    decreases docs.len(),
{
    lemma_term_postings_docs_below(docs, key);
    if docs.len() > 0 {
        let pre = docs.drop_last();
        lemma_term_postings_entries(pre, key);
        let r = term_postings(pre, key);
        let out = term_postings(docs, key);
        let ps = positions_of(docs.last(), key);
        let last_id = (docs.len() - 1) as u32;
        assert(last_id as int == docs.len() - 1);
        assert forall|d: int| 0 <= d < pre.len() implies pre[d] == docs[d] by {}
        if ps.len() > 0 {
            assert(out == r.push((last_id, ps)));
        } else {
            assert(out == r);
        }
        assert forall|k: int| 0 <= k < out.len() implies (#[trigger] out[k]).0 < docs.len()
            && out[k].1 == positions_of(docs[out[k].0 as int], key) by {
            if k < r.len() {
                assert(out[k] == r[k]);
            }
        }
        assert forall|d: u32|
            (exists|k: int| 0 <= k < out.len() && #[trigger] out[k].0 == d) <==> (d < docs.len()
                && #[trigger] positions_of(docs[d as int], key).len() > 0) by {
            if d < docs.len() && positions_of(docs[d as int], key).len() > 0 {
                if d as int == docs.len() - 1 {
                    assert(out[out.len() - 1].0 == d);
                } else {
                    assert(positions_of(pre[d as int], key).len() > 0);
                    let k = choose|k: int| 0 <= k < r.len() && #[trigger] r[k].0 == d;
                    assert(out[k] == r[k]);
                }
            }
        }
    }
}

/// Collects posting lists document by document.
pub struct IndexBuilder {
    terms: Vec<Vec<u8>>,
    lists: Vec<Vec<Posting>>,
    doc_count: u32,
    docs: Ghost<Seq<Seq<Seq<u8>>>>,
}

/// A non-empty token has non-empty UTF-8 bytes.
pub(crate) proof fn lemma_encode_nonempty(chars: Seq<char>)
    requires
        chars.len() > 0,
    ensures
        encode_utf8(chars).len() > 0,
{
    reveal_with_fuel(encode_utf8, 1);
}

proof fn lemma_term_step(pre: Seq<Seq<Seq<u8>>>, cur: Seq<Seq<u8>>, k: Seq<u8>, key: Seq<u8>)
    ensures
        term_postings(pre.push(cur), key) == (if positions_of(cur, key).len() > 0 {
            term_postings(pre, key).push((pre.len() as u32, positions_of(cur, key)))
        } else {
            term_postings(pre, key)
        }),
        key != k ==> term_postings(pre.push(cur.push(k)), key) == term_postings(pre.push(cur), key),
        key == k ==> term_postings(pre.push(cur.push(k)), key) == term_postings(pre, key).push(
            (pre.len() as u32, positions_of(cur, key).push(cur.len() as u32)),
        ),
{
    assert(pre.push(cur).drop_last() =~= pre);
    assert(pre.push(cur.push(k)).drop_last() =~= pre);
    assert(cur.push(k).drop_last() =~= cur);
}

/// Inserting between the keys below and the keys above keeps byte strings sorted.
pub proof fn lemma_insert_sorted(t: Seq<Seq<u8>>, j: int, k: Seq<u8>)
    requires
        strictly_sorted(t),
        0 <= j <= t.len(),
        forall|i: int| 0 <= i < j ==> lex_lt(#[trigger] t[i], k),
        forall|i: int| j <= i < t.len() ==> lex_lt(k, #[trigger] t[i]),
    ensures
        strictly_sorted(t.insert(j, k)),
{
    let u = t.insert(j, k);
    assert forall|a: int, b: int| 0 <= a < b < u.len() implies lex_lt(u[a], u[b]) by {
        if b < j {
            assert(u[a] == t[a] && u[b] == t[b]);
        } else if b == j {
            assert(u[a] == t[a]);
        } else if a < j {
            assert(u[a] == t[a] && u[b] == t[b - 1]);
            lemma_lex_trans(t[a], k, t[b - 1]);
        } else if a == j {
            assert(u[b] == t[b - 1]);
        } else {
            assert(u[a] == t[a - 1] && u[b] == t[b - 1]);
        }
    }
}

impl IndexBuilder {
    /// The documents added so far, as the UTF-8 bytes of their tokens.
    pub closed spec fn documents(&self) -> Seq<Seq<Seq<u8>>> {
        self.docs@
    }

    /// Number of distinct terms seen so far.
    pub closed spec fn term_count(&self) -> nat {
        self.terms.len() as nat
    }

    /// Number of distinct terms seen so far.
    pub fn terms_len(&self) -> (n: usize)
        ensures
            n == self.term_count(),
    {
        self.terms.len()
    }

    /// Number of documents added so far.
    pub fn document_count(&self) -> (n: u32)
        requires
            self.wf(),
        ensures
            n == self.documents().len(),
    {
        self.doc_count
    }

    /// The builder's parts agree with the documents added.
    pub closed spec fn wf(&self) -> bool {
        &&& builder_state_ok(
            bytes_view(self.terms@),
            decoded_view(self.lists@),
            self.docs@,
        )
        &&& self.docs@.len() == self.doc_count
        &&& forall|d: int| 0 <= d < self.docs@.len() ==> (#[trigger] self.docs@[d]).len() < u32::MAX
    }

    /// A builder with no documents.
    pub fn new() -> (b: Self)
        ensures
            b.wf(),
            b.documents() == Seq::<Seq<Seq<u8>>>::empty(),
            b.term_count() == 0,
    {
        let b = IndexBuilder {
            terms: Vec::new(),
            lists: Vec::new(),
            doc_count: 0,
            docs: Ghost(Seq::empty()),
        };
        assert forall|key: Seq<u8>| (#[trigger] term_postings(b.docs@, key)).len() == 0 by {}
        b
    }
}


impl IndexBuilder {
    /// Adds the next document, given by its tokens; it gets the next document number.
    pub fn add_document(&mut self, tokens: &Vec<String>)
        requires
            old(self).wf(),
            old(self).documents().len() < u32::MAX,
            tokens.len() < u32::MAX,
            forall|t: int| 0 <= t < tokens.len() ==> (#[trigger] tokens@[t])@.len() > 0,
        ensures
            final(self).wf(),
            final(self).documents() == old(self).documents().push(doc_keys(tokens.deep_view())),
            final(self).term_count() >= old(self).term_count(),
    {
        let d = self.doc_count;
        let ghost pre = self.docs@;
        let ghost toks = tokens.deep_view();
        proof {
            self.docs@ = pre.push(Seq::<Seq<u8>>::empty());
            assert(doc_keys(toks.take(0)) =~= Seq::<Seq<u8>>::empty());
            assert forall|key: Seq<u8>| #[trigger] term_postings(self.docs@, key) == term_postings(pre, key) by {
                lemma_term_step(pre, Seq::<Seq<u8>>::empty(), key, key);
            }
            assert forall|i: int| 0 <= i < self.terms.len() implies #[trigger] decoded_view(self.lists@)[i] == term_postings(self.docs@, bytes_view(self.terms@)[i]) by {}
        }
        let mut p: usize = 0;
        while p < tokens.len()
            invariant
                p <= tokens.len(),
                tokens.len() < u32::MAX,
                toks == tokens.deep_view(),
                forall|t: int| 0 <= t < tokens.len() ==> (#[trigger] tokens@[t])@.len() > 0,
                d == self.doc_count,
                pre.len() == d,
                d < u32::MAX,
                forall|x: int| 0 <= x < pre.len() ==> (#[trigger] pre[x]).len() < u32::MAX,
                self.docs@ == pre.push(doc_keys(toks.take(p as int))),
                self.terms.len() >= old(self).terms.len(),
                builder_state_ok(
                    bytes_view(self.terms@),
                    decoded_view(self.lists@),
                    self.docs@,
                ),
            decreases tokens.len() - p,
        {
            let ghost cur = doc_keys(toks.take(p as int));
            let ghost tv = bytes_view(self.terms@);
            let ghost lv = decoded_view(self.lists@);
            let key = tokens[p].as_str().as_bytes();
            let ghost k = key@;
            proof {
                assert(toks[p as int] == tokens@[p as int]@);
                lemma_encode_nonempty(tokens@[p as int]@);
                assert(doc_keys(toks.take(p + 1)) =~= cur.push(k));
                lemma_term_postings_docs_below(pre, k);
                lemma_term_step(pre, cur, k, k);
                assert(cur.len() == p);
            }
            let (found, j) = locate(&self.terms, key);
            assert(lv.len() == tv.len());
            if found {
                let n = self.lists[j].len();
                assert(lv[j as int] == term_postings(self.docs@, k));
                if n > 0 && self.lists[j][n - 1].doc_id == d {
                    proof {
                        assert(lv[j as int][n - 1].0 == d);
                        if positions_of(cur, k).len() == 0 {
                            assert(lv[j as int] == term_postings(pre, k));
                            assert(term_postings(pre, k)[n - 1].0 < pre.len());
                        }
                    }
                    self.lists[j][n - 1].positions.push(p as u32);
                    proof {
                        let ps = positions_of(cur, k);
                        assert(ps.len() > 0) by {
                            if ps.len() == 0 {
                                assert(lv[j as int] == term_postings(pre, k));
                                assert(term_postings(pre, k)[n - 1].0 < pre.len());
                            }
                        }
                        assert(lv[j as int] == term_postings(pre, k).push((d, ps)));
                        assert(postings_view(self.lists@[j as int]@) =~= lv[j as int].update(
                            n - 1,
                            (d, ps.push(p as u32)),
                        ));
                        assert(postings_view(self.lists@[j as int]@) =~= term_postings(pre, k).push(
                            (d, ps.push(p as u32)),
                        ));
                    }
                } else {
                    proof {
                        if positions_of(cur, k).len() > 0 {
                            assert(lv[j as int].last().0 == d);
                        }
                    }
                    let mut ps: Vec<u32> = Vec::new();
                    ps.push(p as u32);
                    self.lists[j].push(Posting { doc_id: d, positions: ps });
                    proof {
                        let pc = positions_of(cur, k);
                        assert(pc.len() == 0) by {
                            if pc.len() > 0 {
                                assert(lv[j as int].last().0 == d);
                            }
                        }
                        assert(pc.push(p as u32) =~= seq![p as u32]);
                        assert(lv[j as int] == term_postings(pre, k));
                        assert(postings_view(self.lists@[j as int]@) =~= lv[j as int].push(
                            (d, seq![p as u32]),
                        ));
                    }
                }
                proof {
                    let lv2 = decoded_view(self.lists@);
                    let docs2 = pre.push(cur.push(k));
                    assert(lv2[j as int] =~= term_postings(docs2, k));
                    assert forall|i: int| 0 <= i < tv.len() implies #[trigger] lv2[i] == term_postings(docs2, tv[i]) by {
                        if i != j {
                            assert(lv2[i] == lv[i]);
                            lemma_term_step(pre, cur, k, tv[i]);
                        }
                    }
                    assert forall|i: int| 0 <= i < tv.len() implies (#[trigger] lv2[i]).len() > 0 by {
                        if i != j {
                            assert(lv2[i] == lv[i]);
                        }
                    }
                    assert forall|key2: Seq<u8>| (#[trigger] term_postings(docs2, key2)).len() > 0 implies exists|i: int|
                        0 <= i < tv.len() && tv[i] == key2 by {
                        lemma_term_step(pre, cur, k, key2);
                        if key2 == k {
                            assert(tv[j as int] == key2);
                        } else {
                            assert(term_postings(self.docs@, key2).len() > 0);
                        }
                    }
                }
            } else {
                proof {
                    if term_postings(self.docs@, k).len() > 0 {
                        let i = choose|i: int| 0 <= i < tv.len() && tv[i] == k;
                        assert(bytes_view(self.terms@)[i] == k);
                    }
                    assert(positions_of(cur, k).len() == 0);
                    assert(term_postings(pre, k).len() == 0);
                    lemma_insert_sorted(tv, j as int, k);
                }
                self.terms.insert(j, slice_to_vec(key));
                let mut ps: Vec<u32> = Vec::new();
                ps.push(p as u32);
                let mut list: Vec<Posting> = Vec::new();
                list.push(Posting { doc_id: d, positions: ps });
                assert(postings_view(list@) =~= seq![(d, seq![p as u32])]);
                self.lists.insert(j, list);
                proof {
                    let tv2 = bytes_view(self.terms@);
                    let lv2 = decoded_view(self.lists@);
                    let docs2 = pre.push(cur.push(k));
                    assert(tv2 =~= tv.insert(j as int, k));
                    assert(positions_of(cur, k).push(p as u32) =~= seq![p as u32]);
                    assert(term_postings(pre, k).push((d, seq![p as u32])) =~= seq![(d, seq![p as u32])]);
                    assert(lv2[j as int] =~= term_postings(docs2, k));
                    assert forall|i: int| 0 <= i < tv2.len() implies #[trigger] lv2[i] == term_postings(docs2, tv2[i]) by {
                        if i < j {
                            assert(lv2[i] == lv[i] && tv2[i] == tv[i]);
                            lemma_term_step(pre, cur, k, tv[i]);
                            lemma_lex_asym(tv[i], k);
                        } else if i > j {
                            assert(lv2[i] == lv[i - 1] && tv2[i] == tv[i - 1]);
                            lemma_term_step(pre, cur, k, tv[i - 1]);
                            lemma_lex_asym(k, tv[i - 1]);
                        }
                    }
                    assert forall|i: int| 0 <= i < tv2.len() implies (#[trigger] lv2[i]).len() > 0 by {
                        if i < j {
                            assert(lv2[i] == lv[i]);
                        } else if i > j {
                            assert(lv2[i] == lv[i - 1]);
                        }
                    }
                    assert forall|i: int| 0 <= i < tv2.len() implies (#[trigger] tv2[i]).len() > 0 by {
                        if i < j {
                            assert(tv2[i] == tv[i]);
                        } else if i > j {
                            assert(tv2[i] == tv[i - 1]);
                        }
                    }
                    assert forall|key2: Seq<u8>| (#[trigger] term_postings(docs2, key2)).len() > 0 implies exists|i: int|
                        0 <= i < tv2.len() && tv2[i] == key2 by {
                        lemma_term_step(pre, cur, k, key2);
                        if key2 == k {
                            assert(tv2[j as int] == key2);
                        } else {
                            assert(term_postings(self.docs@, key2).len() > 0);
                            let i = choose|i: int| 0 <= i < tv.len() && tv[i] == key2;
                            if i < j {
                                assert(tv2[i] == key2);
                            } else {
                                assert(tv2[i + 1] == key2);
                            }
                        }
                    }
                }
            }
            proof {
                self.docs@ = pre.push(cur.push(k));
            }
            p += 1;
        }
        assert(toks.take(p as int) =~= toks);
        self.doc_count = d + 1;
        proof {
            assert forall|x: int| 0 <= x < self.docs@.len() implies (#[trigger] self.docs@[x]).len() < u32::MAX by {
                if x < pre.len() {
                    assert(self.docs@[x] == pre[x]);
                }
            }
        }
    }
}


proof fn lemma_postings_fit(docs: Seq<Seq<Seq<u8>>>, key: Seq<u8>)
    requires
        docs.len() <= u32::MAX,
        forall|d: int| 0 <= d < docs.len() ==> (#[trigger] docs[d]).len() < u32::MAX,
    ensures
        postings_encodable(term_postings(docs, key)),
        entries_below_max(term_postings(docs, key)),
    decreases docs.len(),
{
    lemma_term_postings_docs_below(docs, key);
    if docs.len() > 0 {
        let pre = docs.drop_last();
        assert forall|d: int| 0 <= d < pre.len() implies (#[trigger] pre[d]).len() < u32::MAX by {
            assert(pre[d] == docs[d]);
        }
        lemma_postings_fit(pre, key);
        let last = docs.last();
        assert(last.len() < u32::MAX);
        lemma_positions_below(last, key);
        let r = term_postings(pre, key);
        let out = term_postings(docs, key);
        let ps = positions_of(last, key);
        if ps.len() > 0 {
            assert(out == r.push(((docs.len() - 1) as u32, ps)));
            assert forall|x: int| 0 <= x < out.len() implies is_nondecreasing(#[trigger] out[x].1) by {
                if x < r.len() {
                    assert(out[x] == r[x]);
                } else {
                    assert forall|a: int, b: int| 0 <= a <= b < ps.len() implies ps[a] <= ps[b] by {
                        if a < b {
                        }
                    }
                }
            }
            assert forall|x: int| 0 <= x < out.len() implies #[trigger] out[x].1.len() <= u32::MAX by {
                if x < r.len() {
                    assert(out[x] == r[x]);
                }
            }
            assert forall|x: int, y: int| 0 <= x < out.len() && 0 <= y < out[x].1.len() implies #[trigger] out[x].1[y]
                < u32::MAX by {
                if x < r.len() {
                    assert(out[x] == r[x]);
                }
            }
        }
    }
}

/// Some key of the dictionary `entries` names list `n`.
pub open spec fn names_list(entries: Map<Seq<u8>, u32>, n: u32) -> bool {
    exists|key: Seq<u8>| #[trigger] trie_lookup(entries, key) == Some(n)
}

/// The dictionary of the first `n` terms: each term to its place.
pub open spec fn places_map(terms: Seq<Seq<u8>>, n: nat) -> Map<Seq<u8>, u32>
    decreases n,
{
    if n == 0 {
        Map::empty()
    } else {
        places_map(terms, (n - 1) as nat).insert(terms[n - 1], (n - 1) as u32)
    }
}

proof fn lemma_places_map(terms: Seq<Seq<u8>>, n: nat)
    requires
        strictly_sorted(terms),
        n <= terms.len(),
        terms.len() <= 0x1_0000_0000,
    ensures
        forall|k: Seq<u8>|
            #[trigger] places_map(terms, n).contains_key(k) <==> exists|x: int|
                0 <= x < n && terms[x] == k,
        forall|x: int|
            0 <= x < n ==> #[trigger] places_map(terms, n)[terms[x]] as int == x,
    decreases n,
{
    if n > 0 {
        let prev = places_map(terms, (n - 1) as nat);
        lemma_places_map(terms, (n - 1) as nat);
        assert(places_map(terms, n) == prev.insert(terms[n - 1], (n - 1) as u32));
        assert forall|k: Seq<u8>|
            #[trigger] places_map(terms, n).contains_key(k) <==> exists|x: int|
                0 <= x < n && terms[x] == k by {
            if places_map(terms, n).contains_key(k) {
                if k == terms[n - 1] {
                    assert(terms[n - 1] == k);
                } else {
                    assert(prev.contains_key(k));
                    let x = choose|x: int| 0 <= x < n - 1 && terms[x] == k;
                    assert(terms[x] == k);
                }
            }
            if exists|x: int| 0 <= x < n && terms[x] == k {
                let x = choose|x: int| 0 <= x < n && terms[x] == k;
                if x < n - 1 {
                    assert(prev.contains_key(k));
                }
            }
        }
        assert forall|x: int| 0 <= x < n implies #[trigger] places_map(terms, n)[terms[x]] as int == x by {
            if x < n - 1 {
                lemma_lex_asym(terms[x], terms[n - 1]);
                assert(prev.contains_key(terms[x]));
                assert(places_map(terms, n)[terms[x]] == prev[terms[x]]);
            } else {
                assert(places_map(terms, n)[terms[x]] == (n - 1) as u32);
            }
        }
    }
}

impl IndexBuilder {
    /// Writes the index: every term's posting list in the compact format, and a
    /// dictionary from each term's bytes to the number of its list.
    pub fn finish(self) -> (index: (Vec<Vec<u8>>, Trie<u8, u32>))
        requires
            self.wf(),
            self.term_count() <= 0x1_0000_0000,
        ensures
            index_well_formed(lists_view(index.0@)),
            forall|key: Seq<u8>|
                key.len() > 0 ==> (#[trigger] trie_lookup(trie_entries(index.1), key) is Some
                    <==> term_postings(self.documents(), key).len() > 0),
            forall|key: Seq<u8>|
                #[trigger] trie_lookup(trie_entries(index.1), key) matches Some(n) ==> n
                    < index.0.len() && decoded_postings(index.0@[n as int]@) == Some(
                    term_postings(self.documents(), key),
                ),
            index.0.len() == self.term_count(),
            trie_built(index.1),
            forall|n: u32| n < index.0.len() ==> #[trigger] names_list(trie_entries(index.1), n),
    {
        let ghost docs = self.docs@;
        let ghost tv = bytes_view(self.terms@);
        let ghost lv = decoded_view(self.lists@);
        let mut encoded: Vec<Vec<u8>> = Vec::new();
        let mut builder = trie_builder_new();
        let mut i: usize = 0;
        assert(builder_entries(builder) =~= places_map(tv, 0));
        while i < self.terms.len()
            invariant
                i <= self.terms.len(),
                self.terms.len() == self.lists.len(),
                self.terms.len() <= 0x1_0000_0000,
                tv == bytes_view(self.terms@),
                lv == decoded_view(self.lists@),
                docs == self.docs@,
                docs.len() <= u32::MAX,
                forall|d: int| 0 <= d < docs.len() ==> (#[trigger] docs[d]).len() < u32::MAX,
                builder_state_ok(tv, lv, docs),
                encoded.len() == i,
                forall|x: int|
                    0 <= x < i ==> encoded@[x]@ == crate::codec::encoded_postings(#[trigger] lv[x]),
                builder_entries(builder) == places_map(tv, i as nat),
            decreases self.terms.len() - i,
        {
            proof {
                lemma_postings_fit(docs, tv[i as int]);
                assert(lv[i as int] == postings_view(self.lists@[i as int]@));
            }
            let data = encode_posting_list(&self.lists[i]);
            encoded.push(data);
            assert(tv[i as int] == self.terms@[i as int]@);
            trie_builder_push(&mut builder, self.terms[i].as_slice(), i as u32);
            i += 1;
        }
        let trie = trie_builder_build(builder);
        proof {
            lemma_places_map(tv, tv.len());
            let ev = lists_view(encoded@);
            assert forall|x: int| 0 <= x < ev.len() implies list_well_formed(#[trigger] ev[x]) by {
                lemma_postings_fit(docs, tv[x]);
                lemma_decode_inverts_encode(lv[x]);
                assert(ev[x] == encoded@[x]@);
            }
            assert forall|key: Seq<u8>| key.len() > 0 implies (#[trigger] trie_lookup(
                trie_entries(trie),
                key,
            ) is Some <==> term_postings(docs, key).len() > 0) by {
                if term_postings(docs, key).len() > 0 {
                    let x = choose|x: int| 0 <= x < tv.len() && tv[x] == key;
                }
                if places_map(tv, tv.len()).contains_key(key) {
                    let x = choose|x: int| 0 <= x < tv.len() && tv[x] == key;
                    assert(lv[x].len() > 0);
                }
            }
            assert forall|n: u32| n < encoded.len() implies #[trigger] names_list(trie_entries(trie), n) by {
                assert(places_map(tv, tv.len())[tv[n as int]] == n);
                assert(tv[n as int].len() > 0);
                assert(trie_lookup(trie_entries(trie), tv[n as int]) == Some(n));
            }
            assert forall|key: Seq<u8>| (#[trigger] trie_lookup(trie_entries(trie), key)) is Some implies trie_lookup(trie_entries(trie), key).unwrap()
                < encoded.len() && decoded_postings(encoded@[trie_lookup(trie_entries(trie), key).unwrap() as int]@) == Some(term_postings(docs, key)) by {
                if let Some(n) = trie_lookup(trie_entries(trie), key) {
                    let x = choose|x: int| 0 <= x < tv.len() && tv[x] == key;
                    assert(places_map(tv, tv.len())[tv[x]] as int == x);
                    lemma_postings_fit(docs, tv[x]);
                    lemma_decode_inverts_encode(lv[x]);
                }
            }
        }
        (encoded, trie)
    }
}

} // verus!

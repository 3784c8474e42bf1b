//! Text normalisation for indexing and querying: case folding, tokenisation on runs of
//! characters other than lowercase letters and digits, stop-word removal and
//! lemmatisation.

use vstd::prelude::*;
use vstd::slice::slice_to_vec;
use vstd::utf8::{encode_utf8, encode_utf8_decode_utf8};
use crate::builder::{bytes_view, lemma_insert_sorted, lemma_lex_irreflexive, lex_lt, locate, strictly_sorted};
use crate::text::{
    ascii_lowercase, is_ascii_text, is_token_char, lemma_runs_across_space, lemma_runs_and_split,
    regex_split, separator_pattern, split_at_separators, split_whitespace, str_lowercase, str_trim,
    to_lowercase, token_runs, trailing_run, trim, whitespace_fields,
};

verus! {

/// `p` after lemmatisation: its lemma where `lemmas` has one, otherwise `p` itself.
pub open spec fn lemmatize(lemmas: Map<Seq<char>, Seq<char>>, p: Seq<char>) -> Seq<char> {
    if lemmas.contains_key(p) {
        lemmas[p]
    } else {
        p
    }
}

/// The tokens kept from `pieces`, in order: empty pieces and stop words are dropped,
/// the others are lemmatised.
pub open spec fn select_tokens_spec(
    lemmas: Map<Seq<char>, Seq<char>>,
    stopwords: Set<Seq<char>>,
    pieces: Seq<Seq<char>>,
) -> Seq<Seq<char>>
    decreases pieces.len(),
{
    if pieces.len() == 0 {
        seq![]
    } else {
        let rest = select_tokens_spec(lemmas, stopwords, pieces.drop_last());
        let p = pieces.last();
        if p.len() == 0 || stopwords.contains(p) {
            rest
        } else {
            rest.push(lemmatize(lemmas, p))
        }
    }
}

/// The stop words that a list of lines adds: each line trimmed, empty results left out.
pub open spec fn stopword_lines(lines: Seq<Seq<char>>) -> Set<Seq<char>> {
    Set::new(
        |w: Seq<char>|
            w.len() > 0 && exists|i: int| 0 <= i < lines.len() && str_trim(#[trigger] lines[i]) == w,
    )
}

/// The lemma map after reading `lines` of a lemmatisation file into `m`: every line with
/// at least two white-space separated fields maps its second field to its first.
pub open spec fn lemma_lines_map(m: Map<Seq<char>, Seq<char>>, lines: Seq<Seq<char>>) -> Map<
    Seq<char>,
    Seq<char>,
>
    decreases lines.len(),
{
    if lines.len() == 0 {
        m
    } else {
        let before = lemma_lines_map(m, lines.drop_last());
        let f = whitespace_fields(lines.last());
        if f.len() >= 2 {
            before.insert(f[1], f[0])
        } else {
            before
        }
    }
}

/// Stop words and a lemmatisation table, applied to text. Both are kept sorted by the
/// UTF-8 bytes of their words, each word once, so that a word is found by binary
/// search; the lemma of the `i`-th inflected form is the `i`-th lemma.
pub struct Linguist {
    lemma_keys: Vec<Vec<u8>>,
    lemma_values: Vec<String>,
    stopwords: Vec<Vec<u8>>,
}

/// With `t` strictly sorted, the place of an entry is the one place that holds it.
proof fn lemma_unique_index(t: Seq<Seq<u8>>, j: int)
    requires
        strictly_sorted(t),
        0 <= j < t.len(),
    ensures
        t.index_of(t[j]) == j,
        t.contains(t[j]),
{
    assert(t.contains(t[j]));
    let i = t.index_of(t[j]);
    assert(0 <= i < t.len() && t[i] == t[j]);
    if i < j {
        lemma_lex_irreflexive(t[j]);
    } else if i > j {
        lemma_lex_irreflexive(t[j]);
    }
}

/// Different texts have different UTF-8 bytes.
proof fn lemma_encode_injective(a: Seq<char>, b: Seq<char>)
    requires
        encode_utf8(a) == encode_utf8(b),
    ensures
        a == b,
{
    encode_utf8_decode_utf8(a);
    encode_utf8_decode_utf8(b);
}

impl Linguist {
    /// The lemmatisation table: inflected form to lemma.
    pub closed spec fn lemmas(&self) -> Map<Seq<char>, Seq<char>> {
        Map::new(
            |k: Seq<char>| bytes_view(self.lemma_keys@).contains(encode_utf8(k)),
            |k: Seq<char>|
                self.lemma_values@[bytes_view(self.lemma_keys@).index_of(encode_utf8(k))]@,
        )
    }

    /// The stop words.
    pub closed spec fn stopword_set(&self) -> Set<Seq<char>> {
        Set::new(|w: Seq<char>| bytes_view(self.stopwords@).contains(encode_utf8(w)))
    }

    /// Both tables are sorted by bytes with each word once, and every inflected form
    /// has its lemma.
    pub closed spec fn wf(&self) -> bool {
        &&& strictly_sorted(bytes_view(self.lemma_keys@))
        &&& self.lemma_keys.len() == self.lemma_values.len()
        &&& strictly_sorted(bytes_view(self.stopwords@))
    }

    /// An empty linguist: no lemmas, no stop words.
    pub fn new() -> (l: Self)
        ensures
            l.wf(),
            l.lemmas() == Map::<Seq<char>, Seq<char>>::empty(),
            l.stopword_set() == Set::<Seq<char>>::empty(),
    {
        let l = Linguist { lemma_keys: Vec::new(), lemma_values: Vec::new(), stopwords: Vec::new() };
        assert(bytes_view(l.lemma_keys@) =~= Seq::<Seq<u8>>::empty());
        assert(bytes_view(l.stopwords@) =~= Seq::<Seq<u8>>::empty());
        assert(l.lemmas() =~= Map::<Seq<char>, Seq<char>>::empty());
        assert(l.stopword_set() =~= Set::<Seq<char>>::empty());
        l
    }

    /// Maps `inflected` to `lemma`, replacing any lemma it had.
    pub fn insert_lemma(&mut self, inflected: String, lemma: String)
        requires
            old(self).wf(),
        ensures
            final(self).wf(),
            final(self).lemmas() == old(self).lemmas().insert(inflected@, lemma@),
            final(self).stopword_set() == old(self).stopword_set(),
    {
        let ghost t = bytes_view(self.lemma_keys@);
        let ghost v = self.lemma_values@;
        let ghost m0 = self.lemmas();
        let key = inflected.as_str().as_bytes();
        let ghost k = key@;
        assert(k == encode_utf8(inflected@));
        let (hit, j) = locate(&self.lemma_keys, key);
        if hit {
            self.lemma_values.set(j, lemma);
            proof {
                assert(bytes_view(self.lemma_keys@) == t);
                lemma_unique_index(t, j as int);
                assert forall|c: Seq<char>| #[trigger] self.lemmas().contains_key(c) implies m0.contains_key(
                    c,
                ) || c == inflected@ by {}
                assert forall|c: Seq<char>| m0.insert(inflected@, lemma@).contains_key(c) implies #[trigger] self.lemmas().contains_key(
                    c,
                ) by {}
                assert forall|c: Seq<char>| #[trigger] self.lemmas().contains_key(c) implies self.lemmas()[c]
                    == m0.insert(inflected@, lemma@)[c] by {
                    let e = encode_utf8(c);
                    let i = t.index_of(e);
                    assert(0 <= i < t.len() && t[i] == e);
                    lemma_unique_index(t, i);
                    if c == inflected@ {
                        assert(i == j);
                    } else {
                        if i == j {
                            lemma_encode_injective(c, inflected@);
                        }
                        assert(self.lemma_values@[i] == v[i]);
                    }
                }
                assert(self.lemmas() =~= m0.insert(inflected@, lemma@));
            }
        } else {
            proof {
                assert forall|i: int| 0 <= i < j implies lex_lt(#[trigger] t[i], k) by {}
                lemma_insert_sorted(t, j as int, k);
            }
            self.lemma_keys.insert(j, slice_to_vec(key));
            self.lemma_values.insert(j, lemma);
            proof {
                let t2 = bytes_view(self.lemma_keys@);
                assert(t2 =~= t.insert(j as int, k));
                let v2 = self.lemma_values@;
                assert(v2 == v.insert(j as int, lemma));
                assert forall|c: Seq<char>| #[trigger] self.lemmas().contains_key(c) <==> m0.insert(
                    inflected@,
                    lemma@,
                ).contains_key(c) by {
                    let e = encode_utf8(c);
                    if t2.contains(e) {
                        let x = choose|x: int| 0 <= x < t2.len() && t2[x] == e;
                        if x < j {
                            assert(t[x] == e);
                        } else if x > j {
                            assert(t[x - 1] == e);
                        } else {
                            lemma_encode_injective(c, inflected@);
                        }
                    }
                    if t.contains(e) {
                        let x = choose|x: int| 0 <= x < t.len() && t[x] == e;
                        if x < j {
                            assert(t2[x] == e);
                        } else {
                            assert(t2[x + 1] == e);
                        }
                    }
                    if c == inflected@ {
                        assert(t2[j as int] == e);
                    }
                }
                assert forall|c: Seq<char>| #[trigger] self.lemmas().contains_key(c) implies self.lemmas()[c]
                    == m0.insert(inflected@, lemma@)[c] by {
                    let e = encode_utf8(c);
                    let i2 = t2.index_of(e);
                    assert(0 <= i2 < t2.len() && t2[i2] == e);
                    lemma_unique_index(t2, i2);
                    if c == inflected@ {
                        lemma_unique_index(t2, j as int);
                        assert(i2 == j);
                    } else {
                        if i2 == j {
                            lemma_encode_injective(c, inflected@);
                        }
                        let i = if i2 < j { i2 } else { i2 - 1 };
                        assert(t[i] == e);
                        lemma_unique_index(t, i);
                        assert(v2[i2] == v[i]);
                    }
                }
                assert(self.lemmas() =~= m0.insert(inflected@, lemma@));
            }
        }
    }

    /// Adds `word` to the stop words.
    pub fn insert_stopword(&mut self, word: String)
        requires
            old(self).wf(),
        ensures
            final(self).wf(),
            final(self).stopword_set() == old(self).stopword_set().insert(word@),
            final(self).lemmas() == old(self).lemmas(),
    {
        let ghost t = bytes_view(self.stopwords@);
        let ghost s0 = self.stopword_set();
        let key = word.as_str().as_bytes();
        let ghost k = key@;
        assert(k == encode_utf8(word@));
        let (hit, j) = locate(&self.stopwords, key);
        if hit {
            assert(self.stopword_set() =~= s0.insert(word@));
        } else {
            proof {
                assert forall|i: int| 0 <= i < j implies lex_lt(#[trigger] t[i], k) by {}
                lemma_insert_sorted(t, j as int, k);
            }
            self.stopwords.insert(j, slice_to_vec(key));
            proof {
                let t2 = bytes_view(self.stopwords@);
                assert(t2 =~= t.insert(j as int, k));
                assert forall|c: Seq<char>| #[trigger] self.stopword_set().contains(c) <==> s0.insert(
                    word@,
                ).contains(c) by {
                    let e = encode_utf8(c);
                    if t2.contains(e) {
                        let x = choose|x: int| 0 <= x < t2.len() && t2[x] == e;
                        if x < j {
                            assert(t[x] == e);
                        } else if x > j {
                            assert(t[x - 1] == e);
                        } else {
                            lemma_encode_injective(c, word@);
                        }
                    }
                    if t.contains(e) {
                        let x = choose|x: int| 0 <= x < t.len() && t[x] == e;
                        if x < j {
                            assert(t2[x] == e);
                        } else {
                            assert(t2[x + 1] == e);
                        }
                    }
                    if c == word@ {
                        assert(t2[j as int] == e);
                    }
                }
                assert(self.stopword_set() =~= s0.insert(word@));
            }
        }
    }

    /// Whether `word` is a stop word.
    pub fn is_stopword(&self, word: &String) -> (b: bool)
        requires
            self.wf(),
        ensures
            b == self.stopword_set().contains(word@),
    {
        let (hit, _) = locate(&self.stopwords, word.as_str().as_bytes());
        hit
    }

    /// The lemma of `word`, if the table has one.
    pub fn lookup_lemma(&self, word: &String) -> (found: Option<String>)
        requires
            self.wf(),
        ensures
            found is Some <==> self.lemmas().contains_key(word@),
            found matches Some(l) ==> l@ == self.lemmas()[word@],
    {
        let ghost t = bytes_view(self.lemma_keys@);
        let (hit, j) = locate(&self.lemma_keys, word.as_str().as_bytes());
        if hit {
            proof {
                lemma_unique_index(t, j as int);
            }
            Some(self.lemma_values[j].clone())
        } else {
            None
        }
    }

    /// The tokens kept from `pieces`: empty pieces and stop words dropped, the rest
    /// lemmatised.
    pub fn select_tokens(&self, pieces: &Vec<String>) -> (tokens: Vec<String>)
        requires
            self.wf(),
        ensures
            tokens.deep_view() == select_tokens_spec(
                self.lemmas(),
                self.stopword_set(),
                pieces.deep_view(),
            ),
    {
        let mut tokens: Vec<String> = Vec::new();
        let mut i: usize = 0;
        while i < pieces.len()
            invariant
                i <= pieces.len(),
                self.wf(),
                tokens.deep_view() == select_tokens_spec(
                    self.lemmas(),
                    self.stopword_set(),
                    pieces.deep_view().take(i as int),
                ),
            decreases pieces.len() - i,
        {
            let ghost pre = pieces.deep_view().take(i + 1);
            assert(pre.drop_last() =~= pieces.deep_view().take(i as int));
            assert(pre.last() == pieces[i as int]@);
            let piece = &pieces[i];
            if !piece.as_str().is_empty() && !self.is_stopword(piece) {
                let ghost before = tokens.deep_view();
                match self.lookup_lemma(piece) {
                    Some(lemma) => tokens.push(lemma),
                    None => tokens.push(piece.clone()),
                }
                assert(tokens.deep_view() =~= before.push(lemmatize(self.lemmas(), piece@)));
            } else {
                assert(piece@.len() == 0 || self.stopword_set().contains(piece@));
            }
            i += 1;
        }
        assert(pieces.deep_view().take(pieces.len() as int) =~= pieces.deep_view());
        tokens
    }

    /// Tokens of text that is already lowercase: split on runs of characters other than
    /// lowercase letters and digits, then filtered and lemmatised.
    pub fn process_lowercase(&self, lowered: &str) -> (tokens: Vec<String>)
        requires
            self.wf(),
        ensures
            tokens.deep_view() == select_tokens_spec(
                self.lemmas(),
                self.stopword_set(),
                split_at_separators(lowered@),
            ),
    {
        let pattern = "[^a-z0-9]+";
        proof {
            reveal_strlit("[^a-z0-9]+");
            assert(pattern@ =~= separator_pattern());
        }
        match regex_split(pattern, lowered) {
            Some(pieces) => self.select_tokens(&pieces),
            None => Vec::new(),
        }
    }

    /// Tokens of `text`: case-folded, split on runs of characters other than lowercase
    /// letters and digits, stop words dropped, the rest lemmatised.
    pub fn process(&self, text: &str) -> (tokens: Vec<String>)
        requires
            self.wf(),
        ensures
            tokens.deep_view() == select_tokens_spec(
                self.lemmas(),
                self.stopword_set(),
                split_at_separators(str_lowercase(text@)),
            ),
            is_ascii_text(text@) ==> tokens.deep_view() == select_tokens_spec(
                self.lemmas(),
                self.stopword_set(),
                split_at_separators(ascii_lowercase(text@)),
            ),
    {
        let lowered = to_lowercase(text);
        self.process_lowercase(lowered.as_str())
    }

    /// Adds the stop words of a stop-word file, given as its lines: each line trimmed,
    /// empty lines skipped.
    pub fn load_stopwords(&mut self, lines: &Vec<String>)
        requires
            old(self).wf(),
        ensures
            final(self).wf(),
            final(self).stopword_set() == old(self).stopword_set().union(
                stopword_lines(lines.deep_view()),
            ),
            final(self).lemmas() == old(self).lemmas(),
    {
        let mut i: usize = 0;
        while i < lines.len()
            invariant
                i <= lines.len(),
                self.wf(),
                self.stopword_set() == old(self).stopword_set().union(
                    stopword_lines(lines.deep_view().take(i as int)),
                ),
                self.lemmas() == old(self).lemmas(),
            decreases lines.len() - i,
        {
            let word = trim(lines[i].as_str());
            let ghost pre = lines.deep_view().take(i as int);
            let ghost post = lines.deep_view().take(i + 1);
            assert(post[i as int] == lines[i as int]@);
            if !word.is_empty() {
                self.insert_stopword(word.to_owned());
                assert(stopword_lines(post) =~= stopword_lines(pre).insert(word@)) by {
                    assert forall|w: Seq<char>| stopword_lines(post).contains(w) implies stopword_lines(pre).insert(word@).contains(w) by {
                        let k = choose|k: int| 0 <= k < post.len() && str_trim(#[trigger] post[k]) == w;
                        if k < i {
                            assert(pre[k] == post[k]);
                        }
                    }
                    assert forall|w: Seq<char>| stopword_lines(pre).insert(word@).contains(w) implies stopword_lines(post).contains(w) by {
                        if w != word@ {
                            let k = choose|k: int| 0 <= k < pre.len() && str_trim(#[trigger] pre[k]) == w;
                            assert(post[k] == pre[k]);
                        }
                    }
                }
            } else {
                assert(stopword_lines(post) =~= stopword_lines(pre)) by {
                    assert forall|w: Seq<char>| stopword_lines(post).contains(w) implies stopword_lines(pre).contains(w) by {
                        let k = choose|k: int| 0 <= k < post.len() && str_trim(#[trigger] post[k]) == w;
                        if k < i {
                            assert(pre[k] == post[k]);
                        }
                    }
                    assert forall|w: Seq<char>| stopword_lines(pre).contains(w) implies stopword_lines(post).contains(w) by {
                        let k = choose|k: int| 0 <= k < pre.len() && str_trim(#[trigger] pre[k]) == w;
                        assert(post[k] == pre[k]);
                    }
                }
            }
            assert(self.stopword_set() =~= old(self).stopword_set().union(stopword_lines(post)));
            i += 1;
        }
        assert(lines.deep_view().take(lines.len() as int) =~= lines.deep_view());
    }

    /// Adds the entries of a lemmatisation file, given as its lines: a line with at
    /// least two white-space separated fields maps its second field (the inflected
    /// form) to its first (the lemma); other lines are skipped.
    pub fn load_lemmatization_file(&mut self, lines: &Vec<String>)
        requires
            old(self).wf(),
        ensures
            final(self).wf(),
            final(self).lemmas() == lemma_lines_map(old(self).lemmas(), lines.deep_view()),
            final(self).stopword_set() == old(self).stopword_set(),
    {
        let mut i: usize = 0;
        while i < lines.len()
            invariant
                i <= lines.len(),
                self.wf(),
                self.lemmas() == lemma_lines_map(old(self).lemmas(), lines.deep_view().take(i as int)),
                self.stopword_set() == old(self).stopword_set(),
            decreases lines.len() - i,
        {
            let ghost post = lines.deep_view().take(i + 1);
            assert(post.drop_last() =~= lines.deep_view().take(i as int));
            assert(post.last() == lines[i as int]@);
            let parts = split_whitespace(lines[i].as_str());
            if parts.len() >= 2 {
                assert(parts.deep_view()[0] == parts[0]@ && parts.deep_view()[1] == parts[1]@);
                let lemma = parts[0].clone();
                let inflected = parts[1].clone();
                self.insert_lemma(inflected, lemma);
            }
            i += 1;
        }
        assert(lines.deep_view().take(lines.len() as int) =~= lines.deep_view());
    }
}

/// Selecting from pieces one after the other gives the selections one after the other.
pub proof fn lemma_select_concat(
    lemmas: Map<Seq<char>, Seq<char>>,
    stopwords: Set<Seq<char>>,
    p: Seq<Seq<char>>,
    q: Seq<Seq<char>>,
)
    ensures
        select_tokens_spec(lemmas, stopwords, p + q) == select_tokens_spec(lemmas, stopwords, p)
            + select_tokens_spec(lemmas, stopwords, q),
    decreases q.len(),
{
    if q.len() == 0 {
        assert(p + q =~= p);
        assert(select_tokens_spec(lemmas, stopwords, p) + select_tokens_spec(lemmas, stopwords, q)
            =~= select_tokens_spec(lemmas, stopwords, p));
    } else {
        lemma_select_concat(lemmas, stopwords, p, q.drop_last());
        assert((p + q).drop_last() =~= p + q.drop_last());
        assert((p + q).last() == q.last());
        let a = select_tokens_spec(lemmas, stopwords, p);
        let b = select_tokens_spec(lemmas, stopwords, q.drop_last());
        if q.last().len() == 0 || stopwords.contains(q.last()) {
        } else {
            assert(a + b.push(lemmatize(lemmas, q.last())) =~= (a + b).push(
                lemmatize(lemmas, q.last()),
            ));
        }
    }
}

/// The runs of `s`, less the trailing run when it is not empty.
spec fn runs_before_trailing(s: Seq<char>) -> Seq<Seq<char>> {
    if trailing_run(s).len() > 0 {
        token_runs(s).drop_last()
    } else {
        token_runs(s)
    }
}

proof fn lemma_select_split_prefix(
    lemmas: Map<Seq<char>, Seq<char>>,
    stopwords: Set<Seq<char>>,
    s: Seq<char>,
)
    ensures
        select_tokens_spec(lemmas, stopwords, split_at_separators(s).drop_last())
            == select_tokens_spec(lemmas, stopwords, runs_before_trailing(s)),
    decreases s.len(),
{
    lemma_runs_and_split(s);
    if s.len() == 0 {
        assert(split_at_separators(s).drop_last() =~= Seq::<Seq<char>>::empty());
    } else {
        let p = s.drop_last();
        let c = s.last();
        lemma_select_split_prefix(lemmas, stopwords, p);
        lemma_runs_and_split(p);
        let sp = split_at_separators(p);
        let rp = token_runs(p);
        let t = trailing_run(p);
        if s.len() >= 2 {
            assert(s[s.len() - 2] == p.last());
        }
        if is_token_char(c) {
            assert(split_at_separators(s).drop_last() =~= sp.drop_last());
            if t.len() > 0 {
                assert(token_runs(s).drop_last() =~= rp.drop_last());
            } else {
                assert(token_runs(s).drop_last() =~= rp);
            }
        } else if s.len() >= 2 && !is_token_char(s[s.len() - 2]) {
            assert(split_at_separators(s) == sp);
            assert(token_runs(s) == rp);
        } else {
            assert(split_at_separators(s).drop_last() =~= sp);
            assert(token_runs(s) == rp);
            assert(sp =~= sp.drop_last().push(t));
            if t.len() > 0 {
                assert(rp =~= rp.drop_last().push(t));
            }
        }
    }
}

/// Selecting from the split of `s` is selecting from its runs: the split only adds
/// empty pieces, which selection drops.
pub proof fn lemma_select_split_is_runs(
    lemmas: Map<Seq<char>, Seq<char>>,
    stopwords: Set<Seq<char>>,
    s: Seq<char>,
)
    ensures
        select_tokens_spec(lemmas, stopwords, split_at_separators(s)) == select_tokens_spec(
            lemmas,
            stopwords,
            token_runs(s),
        ),
{
    lemma_runs_and_split(s);
    lemma_select_split_prefix(lemmas, stopwords, s);
    let sp = split_at_separators(s);
    let t = trailing_run(s);
    assert(sp =~= sp.drop_last().push(t));
    if t.len() > 0 {
        let r = token_runs(s);
        assert(r =~= r.drop_last().push(t));
    }
}

/// A space always ends a token: the tokens of two lowercase texts joined by a space
/// are the tokens of the first, then those of the second.
pub proof fn lemma_space_joins_tokens(linguist: Linguist, a: Seq<char>, b: Seq<char>)
    ensures
        select_tokens_spec(
            linguist.lemmas(),
            linguist.stopword_set(),
            split_at_separators(a + seq![' '] + b),
        ) == select_tokens_spec(linguist.lemmas(), linguist.stopword_set(), split_at_separators(a))
            + select_tokens_spec(linguist.lemmas(), linguist.stopword_set(), split_at_separators(b)),
{
    let l = linguist.lemmas();
    let w = linguist.stopword_set();
    lemma_select_split_is_runs(l, w, a + seq![' '] + b);
    lemma_select_split_is_runs(l, w, a);
    lemma_select_split_is_runs(l, w, b);
    lemma_runs_across_space(a, b);
    lemma_select_concat(l, w, token_runs(a), token_runs(b));
}

/// For ASCII text, `process` of two texts joined by a space gives the tokens of the
/// first, then those of the second.
pub proof fn lemma_space_joins_ascii_texts(linguist: Linguist, a: Seq<char>, b: Seq<char>)
    requires
        is_ascii_text(a),
        is_ascii_text(b),
    ensures
        is_ascii_text(a + seq![' '] + b),
        select_tokens_spec(
            linguist.lemmas(),
            linguist.stopword_set(),
            split_at_separators(ascii_lowercase(a + seq![' '] + b)),
        ) == select_tokens_spec(
            linguist.lemmas(),
            linguist.stopword_set(),
            split_at_separators(ascii_lowercase(a)),
        ) + select_tokens_spec(
            linguist.lemmas(),
            linguist.stopword_set(),
            split_at_separators(ascii_lowercase(b)),
        ),
{
    let j = a + seq![' '] + b;
    assert forall|i: int| 0 <= i < j.len() implies (#[trigger] j[i] as u32) < 128 by {
        if i < a.len() {
            assert(j[i] == a[i]);
        } else if i > a.len() {
            assert(j[i] == b[i - a.len() - 1]);
        }
    }
    assert(ascii_lowercase(j) =~= ascii_lowercase(a) + seq![' '] + ascii_lowercase(b));
    lemma_space_joins_tokens(linguist, ascii_lowercase(a), ascii_lowercase(b));
}

/// One piece yields one token, its lemma, unless it is empty or a stop word, which
/// yield none.
pub proof fn lemma_select_single_piece(
    lemmas: Map<Seq<char>, Seq<char>>,
    stopwords: Set<Seq<char>>,
    p: Seq<char>,
)
    ensures
        p.len() > 0 && !stopwords.contains(p) ==> select_tokens_spec(lemmas, stopwords, seq![p])
            == seq![lemmatize(lemmas, p)],
        p.len() == 0 || stopwords.contains(p) ==> select_tokens_spec(lemmas, stopwords, seq![p])
            == Seq::<Seq<char>>::empty(),
{
    reveal_with_fuel(select_tokens_spec, 2);
    assert(seq![p].drop_last() =~= Seq::<Seq<char>>::empty());
    assert(seq![p].last() == p);
    assert(Seq::<Seq<char>>::empty().push(lemmatize(lemmas, p)) =~= seq![lemmatize(lemmas, p)]);
}

/// Every piece is kept or dropped on its own: the tokens of a run of pieces are, in
/// order, those of each non-empty piece that is not a stop word, lemmatised.
pub proof fn lemma_select_each_piece(
    lemmas: Map<Seq<char>, Seq<char>>,
    stopwords: Set<Seq<char>>,
    p: Seq<Seq<char>>,
    q: Seq<char>,
)
    ensures
        select_tokens_spec(lemmas, stopwords, p.push(q)) == select_tokens_spec(lemmas, stopwords, p)
            + select_tokens_spec(lemmas, stopwords, seq![q]),
{
    assert(p.push(q) =~= p + seq![q]);
    lemma_select_concat(lemmas, stopwords, p, seq![q]);
}

/// What reading one line adds to a lemma table: a line with at least two white-space
/// separated fields maps its second field to its first; another line changes nothing.
pub proof fn lemma_lemma_line(m: Map<Seq<char>, Seq<char>>, lines: Seq<Seq<char>>, line: Seq<char>)
    ensures
        lemma_lines_map(m, lines.push(line)) == (if whitespace_fields(line).len() >= 2 {
            lemma_lines_map(m, lines).insert(whitespace_fields(line)[1], whitespace_fields(line)[0])
        } else {
            lemma_lines_map(m, lines)
        }),
        whitespace_fields(line).len() >= 2 ==> lemma_lines_map(m, seq![line]) == m.insert(
            whitespace_fields(line)[1],
            whitespace_fields(line)[0],
        ),
        whitespace_fields(line).len() < 2 ==> lemma_lines_map(m, seq![line]) == m,
{
    reveal_with_fuel(lemma_lines_map, 2);
    assert(lines.push(line).drop_last() =~= lines);
    assert(seq![line].drop_last() =~= Seq::<Seq<char>>::empty());
    assert(seq![line].last() == line);
}

/// The lemma table after reading lines: every line with at least two fields maps its
/// second field to its first unless a later such line maps the same field; the other
/// words keep what the table had before.
pub proof fn lemma_lemma_lines_last_wins(m: Map<Seq<char>, Seq<char>>, lines: Seq<Seq<char>>)
    ensures
        forall|i: int|
            0 <= i < lines.len() && whitespace_fields(#[trigger] lines[i]).len() >= 2 && (forall|
                j: int,
            |
                i < j < lines.len() && whitespace_fields(#[trigger] lines[j]).len() >= 2
                    ==> whitespace_fields(lines[j])[1] != whitespace_fields(lines[i])[1]) ==> lemma_lines_map(
                m,
                lines,
            ).contains_key(whitespace_fields(lines[i])[1]) && lemma_lines_map(m, lines)[whitespace_fields(
                lines[i],
            )[1]] == whitespace_fields(lines[i])[0],
        forall|w: Seq<char>|
            (forall|i: int|
                0 <= i < lines.len() && whitespace_fields(#[trigger] lines[i]).len() >= 2
                    ==> whitespace_fields(lines[i])[1] != w) ==> (#[trigger] lemma_lines_map(
                m,
                lines,
            ).contains_key(w) == m.contains_key(w) && (m.contains_key(w) ==> lemma_lines_map(
                m,
                lines,
            )[w] == m[w])),
    decreases lines.len(),
{
    if lines.len() > 0 {
        let p = lines.drop_last();
        let l = lines.last();
        lemma_lemma_lines_last_wins(m, p);
        lemma_lemma_line(m, p, l);
        assert(p.push(l) =~= lines);
        let f = whitespace_fields(l);
        assert forall|i: int|
            0 <= i < lines.len() && whitespace_fields(#[trigger] lines[i]).len() >= 2 && (forall|
                j: int,
            |
                i < j < lines.len() && whitespace_fields(#[trigger] lines[j]).len() >= 2
                    ==> whitespace_fields(lines[j])[1] != whitespace_fields(lines[i])[1]) implies lemma_lines_map(
            m,
            lines,
        ).contains_key(whitespace_fields(lines[i])[1]) && lemma_lines_map(m, lines)[whitespace_fields(
            lines[i],
        )[1]] == whitespace_fields(lines[i])[0] by {
            if i < p.len() {
                assert(lines[i] == p[i]);
                assert(whitespace_fields(lines[lines.len() - 1]).len() >= 2 ==> whitespace_fields(
                    lines[lines.len() - 1],
                )[1] != whitespace_fields(lines[i])[1]);
                assert forall|j: int|
                    i < j < p.len() && whitespace_fields(#[trigger] p[j]).len() >= 2 implies whitespace_fields(
                    p[j],
                )[1] != whitespace_fields(p[i])[1] by {
                    assert(p[j] == lines[j]);
                }
            }
        }
        assert forall|w: Seq<char>|
            (forall|i: int|
                0 <= i < lines.len() && whitespace_fields(#[trigger] lines[i]).len() >= 2
                    ==> whitespace_fields(lines[i])[1] != w) implies (#[trigger] lemma_lines_map(
            m,
            lines,
        ).contains_key(w) == m.contains_key(w) && (m.contains_key(w) ==> lemma_lines_map(
            m,
            lines,
        )[w] == m[w])) by {
            assert forall|i: int|
                0 <= i < p.len() && whitespace_fields(#[trigger] p[i]).len() >= 2 implies whitespace_fields(
                p[i],
            )[1] != w by {
                assert(p[i] == lines[i]);
            }
            assert(whitespace_fields(lines[lines.len() - 1]).len() >= 2 ==> whitespace_fields(
                lines[lines.len() - 1],
            )[1] != w);
        }
    }
}

} // verus!

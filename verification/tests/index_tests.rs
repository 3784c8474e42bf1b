use simple_wiki_search::builder::IndexBuilder;
use simple_wiki_search::codec::{decode_posting_list, encode_posting_list, Posting};
use simple_wiki_search::trie::build_dictionary;
use simple_wiki_search::linguist::Linguist;
use simple_wiki_search::query::{search, search_tokens};
use simple_wiki_search::ranking::{match_documents, match_documents_checked, DocumentMatch, DocumentMetadata};
use trie_rs::map::TrieBuilder;

fn strings(v: &[&str]) -> Vec<String> {
    v.iter().map(|s| s.to_string()).collect()
}

fn id_trie(terms: &[(&str, u32)]) -> trie_rs::map::Trie<u8, u32> {
    let mut b = TrieBuilder::new();
    for (t, n) in terms {
        b.push(t.as_bytes(), *n);
    }
    b.build()
}

fn meta(n: usize) -> Vec<DocumentMetadata> {
    (0..n)
        .map(|i| DocumentMetadata { path: format!("doc{}.html", i), title: format!("Doc {}", i), len: 10 })
        .collect()
}

fn view(m: &[DocumentMatch]) -> Vec<(u32, Vec<(usize, usize)>, u32)> {
    m.iter().map(|d| (d.doc_id, d.term_stats.clone(), d.min_window)).collect()
}

#[test]
fn conjunctive_search_over_id_lists() {
    let trie = id_trie(&[("cat", 0), ("dog", 1), ("fish", 2), ("ghost", 9)]);
    let lists = vec![vec![1, 3, 5, 8], vec![3, 4, 5], vec![2]];
    assert_eq!(search_tokens(&strings(&["cat", "dog"]), &trie, &lists), vec![3, 5]);
    assert_eq!(search_tokens(&strings(&["cat", "fish"]), &trie, &lists), Vec::<u32>::new());
    assert_eq!(search_tokens(&strings(&["cat", "bird"]), &trie, &lists), Vec::<u32>::new());
    // A dictionary entry naming a list that does not exist matches nothing.
    assert_eq!(search_tokens(&strings(&["ghost"]), &trie, &lists), Vec::<u32>::new());
    assert_eq!(search_tokens(&vec![], &trie, &lists), Vec::<u32>::new());
    assert_eq!(search_tokens(&strings(&["dog"]), &trie, &lists), vec![3, 4, 5]);
}

#[test]
fn search_normalises_the_query() {
    let mut linguist = Linguist::new();
    linguist.insert_lemma("cats".to_string(), "cat".to_string());
    linguist.insert_stopword("the".to_string());
    let trie = id_trie(&[("cat", 0), ("dog", 1)]);
    let lists = vec![vec![1, 3, 5, 8], vec![3, 4, 5]];
    assert_eq!(search("The CATS, dog!", &linguist, &trie, &lists), vec![3, 5]);
    assert_eq!(search("the", &linguist, &trie, &lists), Vec::<u32>::new());
}

fn build(docs: &[&[&str]]) -> (Vec<Vec<u8>>, trie_rs::map::Trie<u8, u32>) {
    let mut b = IndexBuilder::new();
    for d in docs {
        b.add_document(&strings(d));
    }
    b.finish()
}

#[test]
fn built_index_holds_each_terms_postings() {
    let (lists, trie) = build(&[&["new", "york", "city"], &["york", "new", "new"], &[], &["city"]]);
    let n = *trie.exact_match("new").unwrap() as usize;
    let postings = decode_posting_list(&lists[n]);
    let got: Vec<(u32, Vec<u32>)> = postings.iter().map(|p| (p.doc_id, p.positions.clone())).collect();
    assert_eq!(got, vec![(0, vec![0]), (1, vec![1, 2])]);
    let c = *trie.exact_match("city").unwrap() as usize;
    let got: Vec<(u32, Vec<u32>)> =
        decode_posting_list(&lists[c]).iter().map(|p| (p.doc_id, p.positions.clone())).collect();
    assert_eq!(got, vec![(0, vec![2]), (3, vec![0])]);
    assert!(trie.exact_match("boston").is_none());
    assert_eq!(lists.len(), 3);
}

#[test]
fn ranking_inputs_for_a_built_index() {
    let (lists, trie) = build(&[
        &["new", "york", "city"],
        &["york", "is", "new"],
        &["new", "jersey"],
        &["york", "x", "x", "new"],
    ]);
    let docs = meta(4);
    let m = match_documents(&strings(&["new", "york"]), &trie, &lists, &docs).unwrap();
    // "new" is in 4 documents, "york" in 3.
    assert_eq!(
        view(&m),
        vec![
            (0, vec![(1, 4), (1, 3)], 2),
            (1, vec![(1, 4), (1, 3)], 3),
            (3, vec![(1, 4), (1, 3)], 4),
        ]
    );
    assert!(match_documents(&strings(&["new", "boston"]), &trie, &lists, &docs).unwrap().is_empty());
    assert!(match_documents(&vec![], &trie, &lists, &docs).unwrap().is_empty());
    // Documents outside the document table are left out.
    let m = match_documents(&strings(&["york"]), &trie, &lists, &meta(1)).unwrap();
    assert_eq!(view(&m), vec![(0, vec![(1, 3)], 1)]);
}

#[test]
fn built_index_counts_repeated_terms() {
    let (lists, trie) = build(&[&["a", "b", "a"], &["b"], &["a", "a", "c", "b"]]);
    let m = match_documents(&strings(&["a", "b"]), &trie, &lists, &meta(3)).unwrap();
    // "a" occurs twice in documents 0 and 2 and is in 2 documents; "b" is in all 3.
    assert_eq!(view(&m), vec![(0, vec![(2, 2), (1, 3)], 2), (2, vec![(2, 2), (1, 3)], 3)]);
    let m = match_documents(&strings(&["c"]), &trie, &lists, &meta(3)).unwrap();
    assert_eq!(view(&m), vec![(2, vec![(1, 1)], 1)]);
}

#[test]
fn more_query_terms_never_add_documents() {
    let (lists, trie) = build(&[&["a", "b"], &["a"], &["a", "b", "c"], &["b", "c"]]);
    let docs = meta(4);
    let one = view(&match_documents(&strings(&["a"]), &trie, &lists, &docs).unwrap());
    let two = view(&match_documents(&strings(&["a", "b"]), &trie, &lists, &docs).unwrap());
    let three = view(&match_documents(&strings(&["a", "b", "c"]), &trie, &lists, &docs).unwrap());
    let ids = |v: &Vec<(u32, Vec<(usize, usize)>, u32)>| v.iter().map(|m| m.0).collect::<Vec<u32>>();
    assert_eq!(ids(&one), vec![0, 1, 2]);
    assert_eq!(ids(&two), vec![0, 2]);
    assert_eq!(ids(&three), vec![2]);
}

#[test]
fn checked_matching_refuses_a_corrupt_reached_list() {
    let (mut lists, trie) = build(&[&["a", "b"], &["b"]]);
    let docs = meta(2);
    let a = *trie.exact_match("a").unwrap() as usize;
    let good = match_documents_checked(&strings(&["b"]), &trie, &lists, &docs).map(|m| view(&m));
    assert_eq!(good, Some(vec![(0, vec![(1, 2)], 1), (1, vec![(1, 2)], 1)]));
    lists[a] = vec![0x80];
    assert!(match_documents_checked(&strings(&["a"]), &trie, &lists, &docs).is_none());
    // Only the lists the query reaches are read.
    assert!(match_documents_checked(&strings(&["b"]), &trie, &lists, &docs).is_some());
}

#[test]
fn positions_up_to_u32_max_are_matched() {
    // One document holding "x" at the last position a u32 can name, and "y" just before.
    let x = encode_posting_list(&vec![Posting { doc_id: 0, positions: vec![u32::MAX] }]);
    let y = encode_posting_list(&vec![Posting { doc_id: 0, positions: vec![u32::MAX - 1] }]);
    let trie = build_dictionary(&vec![(b"x".to_vec(), 0), (b"y".to_vec(), 1)]).unwrap();
    let lists = vec![x, y];
    let m = match_documents_checked(&strings(&["x", "y"]), &trie, &lists, &meta(1)).map(|m| view(&m));
    assert_eq!(m, Some(vec![(0, vec![(1, 1), (1, 1)], 2)]));
    // A window from position 0 to u32::MAX spans 2^32 positions: it does not fit.
    let z = encode_posting_list(&vec![Posting { doc_id: 0, positions: vec![0] }]);
    let trie = build_dictionary(&vec![(b"x".to_vec(), 0), (b"z".to_vec(), 1)]).unwrap();
    let lists = vec![lists[0].clone(), z];
    assert!(match_documents_checked(&strings(&["x", "z"]), &trie, &lists, &meta(1)).is_none());
}

#[test]
fn dictionaries_are_built_from_their_entries() {
    let trie = build_dictionary(&vec![(b"cat".to_vec(), 0), (b"dog".to_vec(), 1), (b"cat".to_vec(), 2)]).unwrap();
    assert_eq!(trie.exact_match("cat"), Some(&2));
    assert_eq!(trie.exact_match("dog"), Some(&1));
    assert_eq!(trie.exact_match("cow"), None);
    assert!(build_dictionary(&vec![(b"a".to_vec(), 0), (Vec::new(), 1)]).is_none());
    let lists = vec![vec![1, 3, 5], vec![3, 4]];
    assert_eq!(search_tokens(&strings(&["cat", "dog"]), &build_dictionary(&vec![(b"cat".to_vec(), 0), (b"dog".to_vec(), 1)]).unwrap(), &lists), vec![3]);
}

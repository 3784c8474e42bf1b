# simple_wiki_search

A small search engine over a local dump of the Simple English Wikipedia: a
breadth-first crawler over the dump's HTML files, an indexer that writes an inverted
index with delta- and VByte-coded posting lists and a `trie-rs` term dictionary, and
a search service that answers conjunctive queries ranked by BM25 and term proximity.

The library in `src/` is verified with Verus:

- `codec` — the posting-list format, with decoding proved to invert encoding;
- `window` — the smallest window holding every query term, proved minimal;
- `intersect`, `query` — sorted-list intersection and conjunctive queries;
- `text`, `linguist` — tokenisation, stop words and lemmatisation;
- `trie` — the term dictionary (`trie-rs`);
- `builder` — index construction, with what a written index holds stated exactly;
- `ranking` — the documents matching a query and what each is scored from, with the
  end-to-end statement that a built index answers exactly the documents holding
  every token;
- `html`, `crawl`, `web` — page parts (`scraper`), link resolution (`url`), the
  crawl frontier, and request handling.

`app/` holds the programs around the library: file and network I/O, the HTTP
servers, serialisation, and the floating-point score.

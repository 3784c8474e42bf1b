//! The crawler's decisions: which links to follow and where they lead, the
//! breadth-first frontier of files still to read, and how found files are listed.

use vstd::prelude::*;
use vstd::slice::slice_to_vec;
use vstd::utf8::encode_utf8;
use crate::builder::{bytes_view, lex_lt, locate, strictly_sorted};
use crate::html::{links_spec, page_links, strings_view};

verus! {

/// Whether `url::Url::parse` accepts `s` as an absolute URL.
pub uninterp spec fn url_parses(s: Seq<char>) -> bool;

/// `url::Url::parse(s).is_ok()`; the result is named `url_parses`.
#[verifier::external_body]
pub(crate) fn parses_as_url(s: &str) -> (ok: bool)
    ensures
        ok == url_parses(s@),
{
    url::Url::parse(s).is_ok()
}

/// The serialized `file:` URL that `url::Url::from_file_path` makes of `path`, or
/// `None` when it refuses the path (a relative path, for one).
pub uninterp spec fn file_url(path: Seq<char>) -> Option<Seq<char>>;

/// `url::Url::from_file_path`, serialized; the result is named `file_url`.
#[verifier::external_body]
pub(crate) fn file_url_of(path: &str) -> (url: Option<String>)
    ensures
        url matches Some(u) ==> file_url(path@) == Some(u@),
        url is None ==> file_url(path@) is None,
{
    url::Url::from_file_path(path).ok().map(|u| u.to_string())
}

/// The serialized URL that `href` resolves to against the URL `base`
/// (`url::Url::parse(base)` then `Url::join(href)`), or `None` when either fails.
pub uninterp spec fn url_join(base: Seq<char>, href: Seq<char>) -> Option<Seq<char>>;

/// `url::Url::parse(base)` then `Url::join(href)`, serialized; the result is named
/// `url_join`.
#[verifier::external_body]
pub(crate) fn join_url(base: &str, href: &str) -> (joined: Option<String>)
    ensures
        joined matches Some(u) ==> url_join(base@, href@) == Some(u@),
        joined is None ==> url_join(base@, href@) is None,
{
    url::Url::parse(base).and_then(|b| b.join(href)).ok().map(|u| u.to_string())
}

/// The file path that the URL `url` names (`url::Url::parse` then
/// `Url::to_file_path`, displayed), or `None` when it names no local file.
pub uninterp spec fn url_file_path(url: Seq<char>) -> Option<Seq<char>>;

/// `url::Url::parse(url)` then `Url::to_file_path`, displayed; the result is named
/// `url_file_path`.
#[verifier::external_body]
pub(crate) fn file_path_of(url: &str) -> (path: Option<String>)
    ensures
        path matches Some(p) ==> url_file_path(url@) == Some(p@),
        path is None ==> url_file_path(url@) is None,
{
    url::Url::parse(url).ok().and_then(|u| u.to_file_path().ok()).map(|p| p.display().to_string())
}

/// What `std::path::Path::strip_prefix(base)` leaves of `path` (component-wise),
/// displayed, or `None` when `base` is not a prefix of `path`.
pub uninterp spec fn path_strip_prefix(path: Seq<char>, base: Seq<char>) -> Option<Seq<char>>;

/// `std::path::Path::strip_prefix`, displayed; the result is named `path_strip_prefix`.
#[verifier::external_body]
pub(crate) fn strip_path_prefix(path: &str, base: &str) -> (rest: Option<String>)
    ensures
        rest matches Some(r) ==> path_strip_prefix(path@, base@) == Some(r@),
        rest is None ==> path_strip_prefix(path@, base@) is None,
{
    std::path::Path::new(path).strip_prefix(base).ok().map(|p| p.display().to_string())
}

/// The file a link leads to, if the crawler follows it: anchors (`#...`) and absolute
/// URLs are skipped; a relative link is resolved against the page's URL and must name
/// a local file.
pub open spec fn link_target_spec(base_url: Seq<char>, href: Seq<char>) -> Option<Seq<char>> {
    if href.len() > 0 && href[0] == '#' {
        None
    } else if url_parses(href) {
        None
    } else {
        match url_join(base_url, href) {
            Some(u) => url_file_path(u),
            None => None,
        }
    }
}

/// The file that `href` on the page at `base_url` leads to, or `None` when the crawler
/// does not follow the link.
pub fn link_target(base_url: &str, href: &str) -> (target: Option<String>)
    ensures
        match link_target_spec(base_url@, href@) {
            Some(p) => target matches Some(t) && t@ == p,
            None => target is None,
        },
{
    if href.unicode_len() > 0 && href.get_char(0) == '#' {
        return None;
    }
    if parses_as_url(href) {
        return None;
    }
    match join_url(base_url, href) {
        Some(u) => file_path_of(u.as_str()),
        None => None,
    }
}

/// The targets, in order, of the links the crawler follows on the page at `page_path`
/// whose HTML is `html`; `None` when the page's path has no `file:` URL (the crawl
/// cannot resolve its links).
pub open spec fn page_targets_spec(page_path: Seq<char>, html: Seq<char>) -> Option<Seq<Seq<char>>> {
    match file_url(page_path) {
        Some(base) => Some(followed_targets(base, links_spec(html))),
        None => None,
    }
}

/// The targets of the links in `hrefs` that the crawler follows from the page at
/// `base_url`, in order.
pub open spec fn followed_targets(base_url: Seq<char>, hrefs: Seq<Seq<char>>) -> Seq<Seq<char>>
    decreases hrefs.len(),
{
    if hrefs.len() == 0 {
        seq![]
    } else {
        let rest = followed_targets(base_url, hrefs.drop_last());
        match link_target_spec(base_url, hrefs.last()) {
            Some(t) => rest.push(t),
            None => rest,
        }
    }
}

/// Whether a link is followed does not depend on the links before it: the targets of
/// two runs of links are those of the first run, then those of the second; one link
/// gives its target when the crawler follows it, and nothing otherwise.
pub proof fn lemma_followed_targets_split(base_url: Seq<char>, h1: Seq<Seq<char>>, h2: Seq<Seq<char>>)
    ensures
        followed_targets(base_url, h1 + h2) == followed_targets(base_url, h1) + followed_targets(
            base_url,
            h2,
        ),
    decreases h2.len(),
{
    if h2.len() == 0 {
        assert(h1 + h2 =~= h1);
        assert(followed_targets(base_url, h1) + followed_targets(base_url, h2) =~= followed_targets(
            base_url,
            h1,
        ));
    } else {
        lemma_followed_targets_split(base_url, h1, h2.drop_last());
        assert((h1 + h2).drop_last() =~= h1 + h2.drop_last());
        assert((h1 + h2).last() == h2.last());
        let a = followed_targets(base_url, h1);
        let b = followed_targets(base_url, h2.drop_last());
        if let Some(t) = link_target_spec(base_url, h2.last()) {
            assert(a + b.push(t) =~= (a + b).push(t));
        }
    }
}

/// One link yields its target exactly when the crawler follows it.
pub proof fn lemma_followed_target_single(base_url: Seq<char>, href: Seq<char>)
    ensures
        followed_targets(base_url, seq![href]) == match link_target_spec(base_url, href) {
            Some(t) => seq![t],
            None => Seq::<Seq<char>>::empty(),
        },
{
    reveal_with_fuel(followed_targets, 2);
    assert(seq![href].drop_last() =~= Seq::<Seq<char>>::empty());
    assert(seq![href].last() == href);
    if let Some(t) = link_target_spec(base_url, href) {
        assert(Seq::<Seq<char>>::empty().push(t) =~= seq![t]);
    }
}

/// The files that the links of a page lead to, in order.
pub fn page_link_targets(page_path: &str, html: &str) -> (targets: Option<Vec<String>>)
    ensures
        match page_targets_spec(page_path@, html@) {
            Some(t) => targets matches Some(v) && strings_view(v@) == t,
            None => targets is None,
        },
{
    let base = match file_url_of(page_path) {
        Some(b) => b,
        None => {
            return None;
        },
    };
    let hrefs = page_links(html);
    let ghost hv = strings_view(hrefs@);
    let mut targets: Vec<String> = Vec::new();
    let mut i: usize = 0;
    while i < hrefs.len()
        invariant
            i <= hrefs.len(),
            hv == strings_view(hrefs@),
            strings_view(targets@) == followed_targets(base@, hv.take(i as int)),
        decreases hrefs.len() - i,
    {
        assert(hv.take(i + 1).drop_last() =~= hv.take(i as int));
        assert(hv.take(i + 1).last() == hrefs@[i as int]@);
        let ghost t0 = strings_view(targets@);
        match link_target(base.as_str(), hrefs[i].as_str()) {
            Some(t) => {
                targets.push(t);
                assert(strings_view(targets@) =~= t0.push(targets@.last()@));
            },
            None => {},
        }
        i += 1;
    }
    assert(hv.take(i as int) =~= hv);
    Some(targets)
}

/// The directory that the dump's files are listed relative to.
pub open spec fn dump_dir() -> Seq<char> {
    seq![
        'w', 'i', 'k', 'i', 'p', 'e', 'd', 'i', 'a', '-', 's', 'i', 'm', 'p', 'l', 'e', '-', 'h',
        't', 'm', 'l', '-', 'd', 'u', 'm', 'p',
    ]
}

/// How a found file is listed: relative to `root` where it lies under it, then without
/// the leading dump directory where it has one.
pub open spec fn listed_path_spec(path: Seq<char>, root: Seq<char>) -> Seq<char> {
    let rel = match path_strip_prefix(path, root) {
        Some(r) => r,
        None => path,
    };
    match path_strip_prefix(rel, dump_dir()) {
        Some(r) => r,
        None => rel,
    }
}

/// The line that lists the found file `path` when the crawl ran from `root`.
pub fn listed_path(path: &str, root: &str) -> (line: String)
    ensures
        line@ == listed_path_spec(path@, root@),
{
    let rel = match strip_path_prefix(path, root) {
        Some(r) => r,
        None => path.to_owned(),
    };
    let dump = "wikipedia-simple-html-dump";
    proof {
        reveal_strlit("wikipedia-simple-html-dump");
        assert(dump@ =~= dump_dir());
    }
    match strip_path_prefix(rel.as_str(), dump) {
        Some(r) => r,
        None => rel,
    }
}

/// The files found so far, in the order found, and how many of them have been handed
/// out for crawling; the found files, as UTF-8 bytes, are kept sorted beside them for
/// lookup.
pub struct Frontier {
    found: Vec<String>,
    visited: Vec<Vec<u8>>,
    next: usize,
}

/// No two entries of `s` are equal.
pub open spec fn no_duplicates(s: Seq<Seq<u8>>) -> bool {
    forall|a: int, b: int| 0 <= a < b < s.len() ==> s[a] != s[b]
}

/// The UTF-8 bytes of every string.
pub open spec fn strings_bytes(s: Seq<String>) -> Seq<Seq<u8>> {
    s.map_values(|x: String| encode_utf8(x@))
}

impl Frontier {
    /// The files found so far, in the order found.
    pub closed spec fn found_files(&self) -> Seq<Seq<char>> {
        strings_view(self.found@)
    }

    /// How many found files have been handed out for crawling.
    pub closed spec fn handed_out(&self) -> nat {
        self.next as nat
    }

    /// The frontier's parts agree: the sorted lookup copy holds exactly the found files'
    /// bytes, no file was found twice, and no more files were handed out than found.
    pub closed spec fn wf(&self) -> bool {
        &&& strictly_sorted(bytes_view(self.visited@))
        &&& bytes_view(self.visited@).to_set() == strings_bytes(self.found@).to_set()
        &&& no_duplicates(strings_bytes(self.found@))
        &&& self.next <= self.found.len()
    }

    /// A frontier that has found only `seed`.
    pub fn new(seed: String) -> (f: Self)
        ensures
            f.wf(),
            f.found_files() == seq![seed@],
            f.handed_out() == 0,
    {
        let key = slice_to_vec(seed.as_str().as_bytes());
        let mut visited: Vec<Vec<u8>> = Vec::new();
        visited.push(key);
        let mut found: Vec<String> = Vec::new();
        found.push(seed);
        let f = Frontier { found, visited, next: 0 };
        assert(bytes_view(f.visited@).to_set() =~= strings_bytes(f.found@).to_set()) by {
            assert(bytes_view(f.visited@) =~= strings_bytes(f.found@));
        }
        assert(f.found_files() =~= seq![f.found@[0]@]);
        f
    }

    /// Whether `path` has been found already.
    pub fn contains(&self, path: &String) -> (b: bool)
        requires
            self.wf(),
        ensures
            b == self.found_files().contains(path@),
    {
        let (hit, _) = locate(&self.visited, path.as_str().as_bytes());
        proof {
            let sb = strings_bytes(self.found@);
            let key = encode_utf8(path@);
            if hit {
                let i = choose|i: int| 0 <= i < self.visited.len() && #[trigger] bytes_view(self.visited@)[i] == key;
                assert(bytes_view(self.visited@).to_set().contains(key));
                assert(sb.to_set().contains(key));
                let x = choose|x: int| 0 <= x < sb.len() && sb[x] == key;
                vstd::utf8::encode_utf8_decode_utf8(self.found@[x]@);
                vstd::utf8::encode_utf8_decode_utf8(path@);
                assert(self.found_files()[x] == path@);
            } else {
                if self.found_files().contains(path@) {
                    let x = choose|x: int| 0 <= x < self.found_files().len() && self.found_files()[x] == path@;
                    assert(sb[x] == key);
                    assert(sb.to_set().contains(key));
                    assert(bytes_view(self.visited@).to_set().contains(key));
                }
            }
        }
        hit
    }

    /// Records `path` as found unless it was found before; tells whether it was new.
    pub fn discover(&mut self, path: String) -> (new: bool)
        requires
            old(self).wf(),
        ensures
            final(self).wf(),
            new == !old(self).found_files().contains(path@),
            new ==> final(self).found_files() == old(self).found_files().push(path@),
            !new ==> final(self).found_files() == old(self).found_files(),
            final(self).handed_out() == old(self).handed_out(),
    {
        let key = path.as_str().as_bytes();
        let (hit, j) = locate(&self.visited, key);
        let ghost k = key@;
        let ghost sb = strings_bytes(self.found@);
        let ghost vb = bytes_view(self.visited@);
        proof {
            vstd::utf8::encode_utf8_decode_utf8(path@);
            if hit {
                let i = choose|i: int| 0 <= i < self.visited.len() && #[trigger] vb[i] == k;
                assert(vb.to_set().contains(k));
                assert(sb.to_set().contains(k));
                let x = choose|x: int| 0 <= x < sb.len() && sb[x] == k;
                vstd::utf8::encode_utf8_decode_utf8(self.found@[x]@);
                assert(self.found_files()[x] == path@);
            } else {
                if self.found_files().contains(path@) {
                    let x = choose|x: int| 0 <= x < self.found_files().len() && self.found_files()[x] == path@;
                    assert(sb[x] == k);
                    assert(sb.to_set().contains(k));
                    assert(vb.to_set().contains(k));
                    let i = choose|i: int| 0 <= i < vb.len() && vb[i] == k;
                }
            }
        }
        if hit {
            return false;
        }
        proof {
            assert forall|i: int| 0 <= i < j implies lex_lt(#[trigger] vb[i], k) by {}
        }
        self.visited.insert(j, slice_to_vec(key));
        let ghost f0 = self.found_files();
        self.found.push(path);
        proof {
            let vb2 = bytes_view(self.visited@);
            let sb2 = strings_bytes(self.found@);
            assert(vb2 =~= vb.insert(j as int, k));
            assert(sb2 =~= sb.push(k));
            crate::builder::lemma_insert_sorted(vb, j as int, k);
            assert(vb2.to_set() =~= sb2.to_set()) by {
                assert forall|x: Seq<u8>| vb2.to_set().contains(x) implies sb2.to_set().contains(x) by {
                    let i = choose|i: int| 0 <= i < vb2.len() && vb2[i] == x;
                    if i < j {
                        assert(vb.to_set().contains(vb[i]));
                        let y = choose|y: int| 0 <= y < sb.len() && sb[y] == x;
                        assert(sb2[y] == x);
                    } else if i > j {
                        assert(vb2[i] == vb[i - 1]);
                        assert(vb.to_set().contains(vb[i - 1]));
                        let y = choose|y: int| 0 <= y < sb.len() && sb[y] == x;
                        assert(sb2[y] == x);
                    } else {
                        assert(sb2[sb.len() as int] == x);
                    }
                }
                assert forall|x: Seq<u8>| sb2.to_set().contains(x) implies vb2.to_set().contains(x) by {
                    let y = choose|y: int| 0 <= y < sb2.len() && sb2[y] == x;
                    if y < sb.len() {
                        assert(sb[y] == x);
                        assert(sb.to_set().contains(x));
                        assert(vb.to_set().contains(x));
                        let i = choose|i: int| 0 <= i < vb.len() && vb[i] == x;
                        if i < j {
                            assert(vb2[i] == x);
                        } else {
                            assert(vb2[i + 1] == x);
                        }
                    } else {
                        assert(vb2[j as int] == x);
                    }
                }
            }
            assert(no_duplicates(sb2)) by {
                assert forall|a: int, b: int| 0 <= a < b < sb2.len() implies sb2[a] != sb2[b] by {
                    if b == sb.len() {
                        assert(sb2[a] == sb[a]);
                        assert(sb.to_set().contains(sb[a]));
                        assert(vb.to_set().contains(sb[a]));
                        let i = choose|i: int| 0 <= i < vb.len() && vb[i] == sb[a];
                    } else {
                        assert(sb2[a] == sb[a] && sb2[b] == sb[b]);
                    }
                }
            }
            assert(self.found_files() =~= f0.push(path@));
        }
        true
    }

    /// The next found file to crawl, in the order found, or `None` when every found
    /// file has been handed out.
    pub fn next_to_crawl(&mut self) -> (path: Option<String>)
        requires
            old(self).wf(),
        ensures
            final(self).wf(),
            final(self).found_files() == old(self).found_files(),
            old(self).handed_out() < old(self).found_files().len() ==> (path matches Some(p) && p@
                == old(self).found_files()[old(self).handed_out() as int] && final(self).handed_out()
                == old(self).handed_out() + 1),
            old(self).handed_out() >= old(self).found_files().len() ==> path is None
                && final(self).handed_out() == old(self).handed_out(),
    {
        if self.next < self.found.len() {
            let p = self.found[self.next].clone();
            self.next += 1;
            Some(p)
        } else {
            None
        }
    }

    /// The crawl lists every file once: no file is found twice.
    pub proof fn lemma_found_files_unique(&self)
        requires
            self.wf(),
        ensures
            forall|a: int, b: int|
                0 <= a < b < self.found_files().len() ==> self.found_files()[a]
                    != self.found_files()[b],
    {
        let sb = strings_bytes(self.found@);
        assert forall|a: int, b: int| 0 <= a < b < self.found_files().len() implies self.found_files()[a]
            != self.found_files()[b] by {
            assert(sb[a] != sb[b]);
        }
    }

    /// The files found so far, in the order found.
    pub fn found(&self) -> (files: &Vec<String>)
        ensures
            strings_view(files@) == self.found_files(),
    {
        &self.found
    }
}

} // verus!

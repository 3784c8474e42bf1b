use simple_wiki_search::crawl::{link_target, listed_path, Frontier};
use simple_wiki_search::html::{join_with_spaces, page_body_text, page_links, page_title};
use simple_wiki_search::web::{find_parameter, prepared_query, query_parameter, RESULT_LIMIT};

#[test]
fn query_parameter_reads_first_q() {
    assert_eq!(query_parameter("q=hello%20world&x=1"), "hello world");
    assert_eq!(query_parameter("x=1&q=+a+&q=b"), "a");
    assert_eq!(query_parameter(""), "");
    assert_eq!(query_parameter("x=1"), "");
    assert_eq!(RESULT_LIMIT, 50);
}

#[test]
fn find_parameter_takes_the_first_match() {
    let pairs = vec![("a".to_string(), "1".to_string()), ("q".to_string(), "2".to_string()), ("q".to_string(), "3".to_string())];
    assert_eq!(find_parameter(&pairs, &"q".to_string()), Some("2".to_string()));
    assert_eq!(find_parameter(&pairs, &"z".to_string()), None);
}

#[test]
fn empty_queries_are_refused() {
    assert_eq!(prepared_query("   "), None);
    assert_eq!(prepared_query(""), None);
    assert_eq!(prepared_query(" rust lang "), Some("rust lang".to_string()));
}

#[test]
fn links_followed_by_the_crawler() {
    let base = "file:///tmp/wiki/simple/a/page.html";
    assert_eq!(link_target(base, "#top"), None);
    assert_eq!(link_target(base, "http://example.com/x.html"), None);
    assert_eq!(link_target(base, "../b/other.html"), Some("/tmp/wiki/simple/b/other.html".to_string()));
    assert_eq!(link_target(base, "same.html#part"), Some("/tmp/wiki/simple/a/same.html".to_string()));
}

#[test]
fn found_files_are_listed_relative_to_the_dump() {
    assert_eq!(listed_path("/root/w/wikipedia-simple-html-dump/simple/a.html", "/root/w"), "simple/a.html");
    assert_eq!(listed_path("/root/w/data/x.html", "/root/w"), "data/x.html");
    assert_eq!(listed_path("/other/x.html", "/root/w"), "/other/x.html");
}

#[test]
fn frontier_is_breadth_first_without_repeats() {
    let mut f = Frontier::new("a".to_string());
    assert_eq!(f.next_to_crawl(), Some("a".to_string()));
    assert!(f.discover("b".to_string()));
    assert!(f.discover("c".to_string()));
    assert!(!f.discover("a".to_string()));
    assert!(!f.discover("b".to_string()));
    assert!(f.contains(&"c".to_string()));
    assert!(!f.contains(&"d".to_string()));
    assert_eq!(f.next_to_crawl(), Some("b".to_string()));
    assert_eq!(f.next_to_crawl(), Some("c".to_string()));
    assert_eq!(f.next_to_crawl(), None);
    assert_eq!(f.found(), &vec!["a".to_string(), "b".to_string(), "c".to_string()]);
}

#[test]
fn page_parts() {
    let html = "<html><head><title>Cats</title></head><body><p>Cats are</p><p>small</p><a href='dog.html'>d</a><a>none</a><a href=\"#x\">x</a></body></html>";
    assert_eq!(page_title(html), "Cats");
    assert_eq!(page_links(html), vec!["dog.html".to_string(), "#x".to_string()]);
    assert_eq!(page_body_text(html), "Cats are small d none x");
    assert_eq!(page_title("<p>no title</p>"), "Untitled");
    assert_eq!(join_with_spaces(&vec![]), "");
    assert_eq!(join_with_spaces(&vec!["a".to_string(), "b".to_string()]), "a b");
}

#[test]
fn queries_are_trimmed_of_unicode_white_space() {
    assert_eq!(prepared_query("\u{2003}rust\u{85}"), Some("rust".to_string()));
    assert_eq!(prepared_query("\u{3000}\u{a0}"), None);
    assert_eq!(query_parameter("q=%E3%80%80wiki%C2%A0"), "wiki");
}

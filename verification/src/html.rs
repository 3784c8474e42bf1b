//! What the crawler and the indexer read from a page: its links, its title and the
//! text of its body. Parsing and selection are the `scraper` crate's; how the pieces
//! are combined is this module's.

use vstd::prelude::*;

verus! {

/// For every element of `html` that the CSS `selector` selects, in document order,
/// its text nodes (`scraper`: `Html::parse_document`, `Selector::parse`,
/// `Html::select`, `ElementRef::text`); `None` when the selector does not parse.
pub uninterp spec fn selected_texts(html: Seq<char>, selector: Seq<char>) -> Option<
    Seq<Seq<Seq<char>>>,
>;

/// For every element of `html` that the CSS `selector` selects, in document order,
/// the value of its attribute `attribute` if it has one (`scraper`: `Html::select`,
/// `Element::attr`); `None` when the selector does not parse.
pub uninterp spec fn selected_attributes(
    html: Seq<char>,
    selector: Seq<char>,
    attribute: Seq<char>,
) -> Option<Seq<Option<Seq<char>>>>;

/// Strings as character sequences.
pub open spec fn strings_view(v: Seq<String>) -> Seq<Seq<char>> {
    v.map_values(|s: String| s@)
}

/// Nested string vectors as nested character sequences.
pub open spec fn texts_view(t: Seq<Vec<String>>) -> Seq<Seq<Seq<char>>> {
    t.map_values(|v: Vec<String>| strings_view(v@))
}

/// Optional strings as optional character sequences.
pub open spec fn options_view(t: Seq<Option<String>>) -> Seq<Option<Seq<char>>> {
    t.map_values(
        |o: Option<String>|
            match o {
                Some(s) => Some(s@),
                None => None,
            },
    )
}

/// Parses `html` and collects the text nodes of every element `selector` selects; the
/// result is named `selected_texts`.
#[verifier::external_body]
pub(crate) fn select_texts(html: &str, selector: &str) -> (texts: Option<Vec<Vec<String>>>)
    ensures
        texts matches Some(t) ==> selected_texts(html@, selector@) == Some(texts_view(t@)),
        texts is None ==> selected_texts(html@, selector@) is None,
{
    let selector = scraper::Selector::parse(selector).ok()?;
    let document = scraper::Html::parse_document(html);
    Some(
        document.select(&selector).map(|e| e.text().map(|t| t.to_string()).collect()).collect(),
    )
}

/// Parses `html` and collects attribute `attribute` of every element `selector`
/// selects; the result is named `selected_attributes`.
#[verifier::external_body]
pub(crate) fn select_attributes(html: &str, selector: &str, attribute: &str) -> (values: Option<
    Vec<Option<String>>,
>)
    ensures
        values matches Some(v) ==> selected_attributes(html@, selector@, attribute@) == Some(
            options_view(v@),
        ),
        values is None ==> selected_attributes(html@, selector@, attribute@) is None,
{
    let selector = scraper::Selector::parse(selector).ok()?;
    let document = scraper::Html::parse_document(html);
    Some(document.select(&selector).map(|e| e.value().attr(attribute).map(|a| a.to_string())).collect())
}

/// `parts` joined with `sep` between neighbours.
pub open spec fn join_spec(parts: Seq<Seq<char>>, sep: Seq<char>) -> Seq<char>
    decreases parts.len(),
{
    if parts.len() == 0 {
        seq![]
    } else if parts.len() == 1 {
        parts[0]
    } else {
        join_spec(parts.drop_last(), sep) + sep + parts.last()
    }
}

/// `parts` joined with single spaces.
pub fn join_with_spaces(parts: &Vec<String>) -> (joined: String)
    ensures
        joined@ == join_spec(strings_view(parts@), seq![' ']),
{
    let ghost pv = strings_view(parts@);
    let space = " ";
    proof {
        reveal_strlit(" ");
    }
    let mut out = String::new();
    let mut i: usize = 0;
    while i < parts.len()
        invariant
            i <= parts.len(),
            pv == strings_view(parts@),
            space@ == seq![' '],
            out@ == join_spec(pv.take(i as int), seq![' ']),
        decreases parts.len() - i,
    {
        assert(pv.take(i + 1).drop_last() =~= pv.take(i as int));
        assert(pv.take(i + 1).last() == parts@[i as int]@);
        if i > 0 {
            out.append(space);
        } else {
            assert(out@ =~= Seq::<char>::empty());
        }
        out.append(parts[i].as_str());
        if i == 0 {
            assert(pv.take(1)[0] == parts@[0]@);
            assert(out@ =~= parts@[0]@);
        }
        i += 1;
    }
    assert(pv.take(i as int) =~= pv);
    out
}

/// The link targets of a page: the `href` of every `a` element that has one, in order.
pub open spec fn links_spec(html: Seq<char>) -> Seq<Seq<char>> {
    match selected_attributes(html, seq!['a'], seq!['h', 'r', 'e', 'f']) {
        Some(v) => present_values(v),
        None => seq![],
    }
}

/// The values that are present, in order.
pub open spec fn present_values(v: Seq<Option<Seq<char>>>) -> Seq<Seq<char>>
    decreases v.len(),
{
    if v.len() == 0 {
        seq![]
    } else {
        let rest = present_values(v.drop_last());
        match v.last() {
            Some(s) => rest.push(s),
            None => rest,
        }
    }
}

/// The link targets of a page.
pub fn page_links(html: &str) -> (links: Vec<String>)
    ensures
        strings_view(links@) == links_spec(html@),
{
    let a = "a";
    let href = "href";
    proof {
        reveal_strlit("a");
        reveal_strlit("href");
        assert(a@ =~= seq!['a']);
        assert(href@ =~= seq!['h', 'r', 'e', 'f']);
    }
    let mut links: Vec<String> = Vec::new();
    match select_attributes(html, a, href) {
        Some(values) => {
            let ghost vv = options_view(values@);
            let mut i: usize = 0;
            while i < values.len()
                invariant
                    i <= values.len(),
                    vv == options_view(values@),
                    strings_view(links@) == present_values(vv.take(i as int)),
                decreases values.len() - i,
            {
                assert(vv.take(i + 1).drop_last() =~= vv.take(i as int));
                let ghost l0 = strings_view(links@);
                match &values[i] {
                    Some(v) => {
                        links.push(v.clone());
                        assert(strings_view(links@) =~= l0.push(v@));
                    },
                    None => {},
                }
                i += 1;
            }
            assert(vv.take(i as int) =~= vv);
        },
        None => {},
    }
    links
}

/// The title of a page: the text of its first `title` element, text nodes joined with
/// spaces; `Untitled` when it has none.
pub open spec fn title_spec(html: Seq<char>) -> Seq<char> {
    match selected_texts(html, seq!['t', 'i', 't', 'l', 'e']) {
        Some(t) => if t.len() > 0 {
            join_spec(t[0], seq![' '])
        } else {
            seq!['U', 'n', 't', 'i', 't', 'l', 'e', 'd']
        },
        None => seq!['U', 'n', 't', 'i', 't', 'l', 'e', 'd'],
    }
}

/// The title of a page.
pub fn page_title(html: &str) -> (title: String)
    ensures
        title@ == title_spec(html@),
{
    let sel = "title";
    let untitled = "Untitled";
    proof {
        reveal_strlit("title");
        reveal_strlit("Untitled");
        assert(sel@ =~= seq!['t', 'i', 't', 'l', 'e']);
        assert(untitled@ =~= seq!['U', 'n', 't', 'i', 't', 'l', 'e', 'd']);
    }
    match select_texts(html, sel) {
        Some(texts) => {
            if texts.len() > 0 {
                assert(texts_view(texts@)[0] == strings_view(texts@[0]@));
                join_with_spaces(&texts[0])
            } else {
                untitled.to_owned()
            }
        },
        None => untitled.to_owned(),
    }
}

/// The text of a page: the text of every `body` element (text nodes joined with
/// spaces), those joined with spaces.
pub open spec fn body_text_spec(html: Seq<char>) -> Seq<char> {
    match selected_texts(html, seq!['b', 'o', 'd', 'y']) {
        Some(t) => join_spec(t.map_values(|e: Seq<Seq<char>>| join_spec(e, seq![' '])), seq![' ']),
        None => seq![],
    }
}

/// The text of a page.
pub fn page_body_text(html: &str) -> (text: String)
    ensures
        text@ == body_text_spec(html@),
{
    let sel = "body";
    proof {
        reveal_strlit("body");
        assert(sel@ =~= seq!['b', 'o', 'd', 'y']);
    }
    match select_texts(html, sel) {
        Some(texts) => {
            let ghost tv = texts_view(texts@);
            let mut parts: Vec<String> = Vec::new();
            let mut i: usize = 0;
            while i < texts.len()
                invariant
                    i <= texts.len(),
                    parts.len() == i,
                    tv == texts_view(texts@),
                    strings_view(parts@) == tv.take(i as int).map_values(
                        |e: Seq<Seq<char>>| join_spec(e, seq![' ']),
                    ),
                decreases texts.len() - i,
            {
                let ghost p0 = strings_view(parts@);
                assert(tv[i as int] == strings_view(texts@[i as int]@));
                let ghost old_parts = parts@;
                let joined = join_with_spaces(&texts[i]);
                assert(joined@ == join_spec(tv[i as int], seq![' ']));
                parts.push(joined);
                proof {
                    let lhs = strings_view(parts@);
                    let rhs = tv.take(i + 1).map_values(|e: Seq<Seq<char>>| join_spec(e, seq![' ']));
                    assert forall|x: int| 0 <= x < lhs.len() implies lhs[x] == rhs[x] by {
                        if x < i {
                            assert(parts@[x] == old_parts[x]);
                            assert(lhs[x] == p0[x]);
                        }
                    }
                    assert(lhs.len() == rhs.len());
                }
                i += 1;
                assert(strings_view(parts@) =~= tv.take(i as int).map_values(
                    |e: Seq<Seq<char>>| join_spec(e, seq![' ']),
                ));
            }
            assert(tv.take(i as int) =~= tv);
            join_with_spaces(&parts)
        },
        None => String::new(),
    }
}

} // verus!

//! Request-side rules of the search service: reading the query from a URL query
//! string, refusing an empty query, and how many results a response carries.

use vstd::prelude::*;
use crate::text::{str_trim, trim};

verus! {

/// Most results a response lists; the total count is reported besides.
pub const RESULT_LIMIT: usize = 50;

/// What `serde_urlencoded::from_str::<Vec<(String, String)>>` yields for a query
/// string: its decoded name/value pairs in order, or `None` when it does not parse.
pub uninterp spec fn urlencoded_pairs(s: Seq<char>) -> Option<Seq<(Seq<char>, Seq<char>)>>;

/// The name/value pairs held by a vector of string pairs.
pub open spec fn pairs_view(p: Seq<(String, String)>) -> Seq<(Seq<char>, Seq<char>)> {
    p.map_values(|x: (String, String)| (x.0@, x.1@))
}

/// `serde_urlencoded::from_str` into a vector of string pairs; the result is named
/// `urlencoded_pairs`.
#[verifier::external_body]
pub(crate) fn parse_urlencoded(s: &str) -> (pairs: Option<Vec<(String, String)>>)
    ensures
        pairs matches Some(p) ==> urlencoded_pairs(s@) == Some(pairs_view(p@)),
        pairs is None ==> urlencoded_pairs(s@) is None,
{
    serde_urlencoded::from_str::<Vec<(String, String)>>(s).ok()
}

/// The value of the first pair named `name`.
pub open spec fn first_value(pairs: Seq<(Seq<char>, Seq<char>)>, name: Seq<char>) -> Option<Seq<char>>
    decreases pairs.len(),
{
    if pairs.len() == 0 {
        None
    } else if pairs[0].0 == name {
        Some(pairs[0].1)
    } else {
        first_value(pairs.drop_first(), name)
    }
}

/// The value of the first pair named `name`, if any.
pub fn find_parameter(pairs: &Vec<(String, String)>, name: &String) -> (value: Option<String>)
    ensures
        match first_value(pairs_view(pairs@), name@) {
            Some(v) => value matches Some(s) && s@ == v,
            None => value is None,
        },
{
    let ghost pv = pairs_view(pairs@);
    let mut i: usize = 0;
    assert(pv.skip(0) =~= pv);
    while i < pairs.len()
        invariant
            i <= pairs.len(),
            pv == pairs_view(pairs@),
            first_value(pv, name@) == first_value(pv.skip(i as int), name@),
        decreases pairs.len() - i,
    {
        let ghost rest = pv.skip(i as int);
        assert(rest[0] == (pairs@[i as int].0@, pairs@[i as int].1@));
        if pairs[i].0 == *name {
            return Some(pairs[i].1.clone());
        }
        assert(rest.drop_first() =~= pv.skip(i + 1));
        i += 1;
    }
    assert(pv.skip(i as int) =~= Seq::<(Seq<char>, Seq<char>)>::empty());
    None
}

/// The name of the query parameter: `q`.
pub open spec fn query_name() -> Seq<char> {
    seq!['q']
}

/// The query of a request: the first `q` parameter of the query string, trimmed; empty
/// when the query string does not parse or has no `q`.
pub fn query_parameter(query_string: &str) -> (q: String)
    ensures
        q@ == match urlencoded_pairs(query_string@) {
            Some(p) => match first_value(p, query_name()) {
                Some(v) => str_trim(v),
                None => Seq::<char>::empty(),
            },
            None => Seq::<char>::empty(),
        },
{
    let name_str = "q";
    proof {
        reveal_strlit("q");
    }
    let name = name_str.to_owned();
    assert(name@ =~= query_name());
    match parse_urlencoded(query_string) {
        Some(pairs) => match find_parameter(&pairs, &name) {
            Some(value) => trim(value.as_str()).to_owned(),
            None => String::new(),
        },
        None => String::new(),
    }
}

/// A query ready for searching: `raw` trimmed, or `None` when nothing is left.
pub fn prepared_query(raw: &str) -> (q: Option<String>)
    ensures
        str_trim(raw@).len() == 0 ==> q is None,
        str_trim(raw@).len() > 0 ==> (q matches Some(s) && s@ == str_trim(raw@)),
{
    let t = trim(raw);
    if t.is_empty() {
        None
    } else {
        Some(t.to_owned())
    }
}

} // verus!

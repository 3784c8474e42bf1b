//! String operations that the text pipeline takes from std and from the `regex` crate.

use vstd::prelude::*;

verus! {

/// `c` is a lowercase ASCII letter or an ASCII digit.
pub open spec fn is_token_char(c: char) -> bool {
    ('a' <= c && c <= 'z') || ('0' <= c && c <= '9')
}

/// The pieces of `s` between maximal runs of characters that are not token
/// characters, as splitting on the pattern `[^a-z0-9]+` yields them: a separator run at
/// the start or end of `s` is neighboured by an empty piece, and `s` empty gives one
/// empty piece.
pub open spec fn split_at_separators(s: Seq<char>) -> Seq<Seq<char>>
    decreases s.len(),
{
    if s.len() == 0 {
        seq![seq![]]
    } else {
        let r = split_at_separators(s.drop_last());
        let c = s.last();
        if is_token_char(c) {
            r.update(r.len() - 1, r.last().push(c))
        } else if s.len() >= 2 && !is_token_char(s[s.len() - 2]) {
            r
        } else {
            r.push(seq![])
        }
    }
}

/// The pattern `[^a-z0-9]+`: one or more characters that are not token characters.
pub open spec fn separator_pattern() -> Seq<char> {
    seq!['[', '^', 'a', '-', 'z', '0', '-', '9', ']', '+']
}

/// What `regex::Regex::new(pattern)` followed by `Regex::split(haystack)` yields: the
/// pieces of `haystack` between matches of `pattern`, or `None` when `pattern` does
/// not compile.
pub uninterp spec fn regex_split_pieces(pattern: Seq<char>, haystack: Seq<char>) -> Option<
    Seq<Seq<char>>,
>;

/// Compiles `pattern` with `regex::Regex::new` and splits `haystack` with
/// `Regex::split`. The contract names the result `regex_split_pieces`, and states,
/// from the crate's documentation of `split` and of character classes, what the pieces
/// are for the pattern `[^a-z0-9]+`: the pattern compiles and the pieces are those of
/// `split_at_separators`.
#[verifier::external_body]
pub(crate) fn regex_split(pattern: &str, haystack: &str) -> (pieces: Option<Vec<String>>)
    ensures
        pieces matches Some(p) ==> regex_split_pieces(pattern@, haystack@) == Some(p.deep_view()),
        pieces is None ==> regex_split_pieces(pattern@, haystack@) is None,
        pieces matches Some(p) ==> (pattern@ == separator_pattern() ==> p.deep_view()
            == split_at_separators(haystack@)),
        pattern@ == separator_pattern() ==> pieces is Some,
{
    match regex::Regex::new(pattern) {
        Ok(re) => Some(re.split(haystack).map(|piece| piece.to_string()).collect()),
        Err(_) => None,
    }
}

/// What `str::to_lowercase` returns for `s` (lowercase mapping of the Unicode
/// character database).
pub uninterp spec fn str_lowercase(s: Seq<char>) -> Seq<char>;

/// Every character of `s` is ASCII.
pub open spec fn is_ascii_text(s: Seq<char>) -> bool {
    forall|i: int| 0 <= i < s.len() ==> (#[trigger] s[i] as u32) < 128
}

/// `c` with an ASCII capital letter made small; any other character kept.
pub open spec fn ascii_lower(c: char) -> char {
    if 'A' <= c && c <= 'Z' {
        ((c as u32) + 32) as char
    } else {
        c
    }
}

/// `s` with its ASCII capital letters made small.
pub open spec fn ascii_lowercase(s: Seq<char>) -> Seq<char> {
    s.map_values(|c: char| ascii_lower(c))
}

/// `str::to_lowercase`; its result is named `str_lowercase`. By its documentation it
/// maps every character by the Unicode lowercase mapping, which on ASCII text makes
/// `A`-`Z` into `a`-`z` and keeps every other character.
#[verifier::external_body]
pub(crate) fn to_lowercase(s: &str) -> (lowered: String)
    ensures
        lowered@ == str_lowercase(s@),
        is_ascii_text(s@) ==> lowered@ == ascii_lowercase(s@),
{
    s.to_lowercase()
}

/// `c` has the Unicode White_Space property, which `char::is_whitespace` tests and
/// `str::trim` and `str::split_whitespace` go by.
pub open spec fn is_white_space(c: char) -> bool {
    ||| '\u{9}' <= c && c <= '\u{d}'
    ||| c == ' '
    ||| c == '\u{85}'
    ||| c == '\u{a0}'
    ||| c == '\u{1680}'
    ||| '\u{2000}' <= c && c <= '\u{200a}'
    ||| c == '\u{2028}'
    ||| c == '\u{2029}'
    ||| c == '\u{202f}'
    ||| c == '\u{205f}'
    ||| c == '\u{3000}'
}

/// `s` without its leading and trailing white space.
pub open spec fn str_trim(s: Seq<char>) -> Seq<char>
    decreases s.len(),
{
    if s.len() == 0 {
        s
    } else if is_white_space(s[0]) {
        str_trim(s.drop_first())
    } else if is_white_space(s.last()) {
        str_trim(s.drop_last())
    } else {
        s
    }
}

/// `str::trim`: `s` without leading and trailing white space.
#[verifier::external_body]
pub(crate) fn trim(s: &str) -> (trimmed: &str)
    ensures
        trimmed@ == str_trim(s@),
{
    s.trim()
}

/// The maximal runs of characters of `s` that are not white space, in order.
pub open spec fn whitespace_fields(s: Seq<char>) -> Seq<Seq<char>>
    decreases s.len(),
{
    if s.len() == 0 {
        seq![]
    } else {
        let r = whitespace_fields(s.drop_last());
        let c = s.last();
        if is_white_space(c) {
            r
        } else if s.len() >= 2 && !is_white_space(s[s.len() - 2]) {
            r.update(r.len() - 1, r.last().push(c))
        } else {
            r.push(seq![c])
        }
    }
}

/// `str::split_whitespace`, collected: the runs of `s` between white space.
#[verifier::external_body]
pub(crate) fn split_whitespace(s: &str) -> (fields: Vec<String>)
    ensures
        fields.deep_view() == whitespace_fields(s@),
{
    s.split_whitespace().map(|field| field.to_string()).collect()
}

proof fn lemma_split_nonempty(s: Seq<char>)
    ensures
        split_at_separators(s).len() >= 1,
    decreases s.len(),
{
    if s.len() > 0 {
        lemma_split_nonempty(s.drop_last());
    }
}

/// Every piece of the split holds token characters only.
pub proof fn lemma_pieces_hold_token_chars(s: Seq<char>)
    ensures
        forall|i: int, j: int|
            0 <= i < split_at_separators(s).len() && 0 <= j < split_at_separators(s)[i].len()
                ==> is_token_char(#[trigger] split_at_separators(s)[i][j]),
    decreases s.len(),
{
    if s.len() > 0 {
        lemma_pieces_hold_token_chars(s.drop_last());
        lemma_split_nonempty(s.drop_last());
        let r = split_at_separators(s.drop_last());
        let out = split_at_separators(s);
        assert forall|i: int, j: int|
            0 <= i < out.len() && 0 <= j < out[i].len() implies is_token_char(
            #[trigger] out[i][j],
        ) by {
            if is_token_char(s.last()) {
                if i == r.len() - 1 {
                    if j < r.last().len() {
                        assert(out[i][j] == r[i][j]);
                    }
                } else {
                    assert(out[i] == r[i]);
                }
            } else if i < r.len() {
                assert(out[i] == r[i]);
            }
        }
    }
}

/// The run of token characters at the end of `s` (empty when `s` ends otherwise).
pub open spec fn trailing_run(s: Seq<char>) -> Seq<char>
    decreases s.len(),
{
    if s.len() == 0 {
        seq![]
    } else if is_token_char(s.last()) {
        trailing_run(s.drop_last()).push(s.last())
    } else {
        seq![]
    }
}

/// The maximal non-empty runs of token characters of `s`, in order.
pub open spec fn token_runs(s: Seq<char>) -> Seq<Seq<char>>
    decreases s.len(),
{
    if s.len() == 0 {
        seq![]
    } else {
        let r = token_runs(s.drop_last());
        let c = s.last();
        if !is_token_char(c) {
            r
        } else if s.len() >= 2 && is_token_char(s[s.len() - 2]) {
            r.update(r.len() - 1, r.last().push(c))
        } else {
            r.push(seq![c])
        }
    }
}

/// How the split, the runs and the trailing run of `s` relate: the split ends with the
/// trailing run, and a non-empty trailing run is the last run.
pub proof fn lemma_runs_and_split(s: Seq<char>)
    ensures
        split_at_separators(s).len() >= 1,
        split_at_separators(s).last() == trailing_run(s),
        trailing_run(s).len() > 0 <==> (s.len() > 0 && is_token_char(s.last())),
        trailing_run(s).len() > 0 ==> token_runs(s).len() > 0 && token_runs(s).last()
            == trailing_run(s),
    decreases s.len(),
{
    if s.len() > 0 {
        let p = s.drop_last();
        lemma_runs_and_split(p);
        if s.len() >= 2 {
            assert(s[s.len() - 2] == p.last());
        }
    }
}

/// A space between two texts ends a run: the runs of `a`, a space and `b` are the runs
/// of `a`, then those of `b`.
pub proof fn lemma_runs_across_space(a: Seq<char>, b: Seq<char>)
    ensures
        token_runs(a + seq![' '] + b) == token_runs(a) + token_runs(b),
    decreases b.len(),
{
    let sp = a + seq![' '];
    if b.len() == 0 {
        assert(sp + b =~= sp);
        assert(sp.drop_last() =~= a);
        assert(token_runs(a) + token_runs(b) =~= token_runs(a));
    } else {
        let bp = b.drop_last();
        let c = b.last();
        lemma_runs_across_space(a, bp);
        let s = sp + b;
        assert(s.drop_last() =~= sp + bp);
        assert(s.last() == c);
        lemma_runs_and_split(bp);
        if is_token_char(c) {
            if bp.len() > 0 && is_token_char(bp.last()) {
                assert(s[s.len() - 2] == bp.last());
                assert(token_runs(b) == token_runs(bp).update(
                    token_runs(bp).len() - 1,
                    token_runs(bp).last().push(c),
                ));
                assert(token_runs(s) =~= token_runs(a) + token_runs(b));
            } else {
                assert(s[s.len() - 2] == (sp + bp).last());
                if bp.len() == 0 {
                    assert((sp + bp).last() == ' ');
                } else {
                    assert((sp + bp).last() == bp.last());
                }
                assert(token_runs(s) =~= token_runs(a) + token_runs(b));
            }
        } else {
            assert(token_runs(s) =~= token_runs(a) + token_runs(b));
        }
    }
}

} // verus!

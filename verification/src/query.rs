//! The query string of a request and the sort order of a directory listing.

use vstd::prelude::*;
use crate::text::{chars_of, find_char, first_index, lemma_first_index_found, str_eq, string_from_chars, string_from_range};

verus! {

/// Order of the entries of a directory listing.
#[derive(Clone, Copy, PartialEq, Eq, Structural, Debug)]
pub enum SortOrder {
    NameAsc,
    NameDesc,
    TimeAsc,
    TimeDesc,
}

/// The sort order that a `sort` query value selects; anything unknown, or no
/// value, selects ascending by name.
pub open spec fn sort_order_for(value: Option<Seq<char>>) -> SortOrder {
    match value {
        Some(v) => if v == "name_desc"@ {
            SortOrder::NameDesc
        } else if v == "time"@ {
            SortOrder::TimeDesc
        } else if v == "time_asc"@ {
            SortOrder::TimeAsc
        } else {
            SortOrder::NameAsc
        },
        None => SortOrder::NameAsc,
    }
}

/// The query value that names a sort order.
pub open spec fn sort_token(order: SortOrder) -> Seq<char> {
    match order {
        SortOrder::NameAsc => "name"@,
        SortOrder::NameDesc => "name_desc"@,
        SortOrder::TimeAsc => "time_asc"@,
        SortOrder::TimeDesc => "time"@,
    }
}

pub open spec fn opt_view(q: Option<&str>) -> Option<Seq<char>> {
    match q {
        Some(s) => Some(s@),
        None => None,
    }
}

impl SortOrder {
    /// Reads the `sort` query value.
    pub fn from_query(query: Option<&str>) -> (r: SortOrder)
        ensures
            r == sort_order_for(opt_view(query)),
    {
        match query {
            Some(v) => {
                if str_eq(v, "name_desc") {
                    SortOrder::NameDesc
                } else if str_eq(v, "time") {
                    SortOrder::TimeDesc
                } else if str_eq(v, "time_asc") {
                    SortOrder::TimeAsc
                } else {
                    SortOrder::NameAsc
                }
            },
            None => SortOrder::NameAsc,
        }
    }

    /// The query value for this order.
    pub fn as_str(&self) -> (s: &'static str)
        ensures
            s@ == sort_token(*self),
    {
        match self {
            SortOrder::NameAsc => "name",
            SortOrder::NameDesc => "name_desc",
            SortOrder::TimeAsc => "time_asc",
            SortOrder::TimeDesc => "time",
        }
    }
}

/// The order that the name column header of a listing links to: descending
/// when the listing is ascending by name, else ascending by name.
pub open spec fn name_toggle(order: SortOrder) -> SortOrder {
    if order == SortOrder::NameAsc {
        SortOrder::NameDesc
    } else {
        SortOrder::NameAsc
    }
}

/// The order that the time column header of a listing links to: oldest first
/// when the listing is newest first, else newest first.
pub open spec fn time_toggle(order: SortOrder) -> SortOrder {
    if order == SortOrder::TimeDesc {
        SortOrder::TimeAsc
    } else {
        SortOrder::TimeDesc
    }
}

/// The `sort` value of the name column header's link.
pub fn name_next_sort(order: SortOrder) -> (s: &'static str)
    ensures
        s@ == sort_token(name_toggle(order)),
{
    match order {
        SortOrder::NameAsc => "name_desc",
        _ => "name",
    }
}

/// The `sort` value of the time column header's link.
pub fn time_next_sort(order: SortOrder) -> (s: &'static str)
    ensures
        s@ == sort_token(time_toggle(order)),
{
    match order {
        SortOrder::TimeDesc => "time_asc",
        _ => "time",
    }
}

/// Reading back the value of an order gives the order again.
pub proof fn lemma_sort_token_round_trip(order: SortOrder)
    ensures
        sort_order_for(Some(sort_token(order))) == order,
{
    reveal_strlit("name");
    reveal_strlit("name_desc");
    reveal_strlit("time");
    reveal_strlit("time_asc");
    assert("name"@.len() != "name_desc"@.len());
    assert("name"@ != "name_desc"@);
    assert("name"@[0] != "time"@[0]);
    assert("name"@ != "time"@);
    assert("name"@ != "time_asc"@);
    assert("time"@.len() != "name_desc"@.len());
    assert("time"@ != "name_desc"@);
    assert("time_asc"@ != "name_desc"@);
    assert("time_asc"@ != "time"@);
}

/// The column header links of a listing lead to the toggled orders: reading
/// back either link's value gives the order that header switches to.
pub proof fn lemma_column_links(order: SortOrder)
    ensures
        sort_order_for(Some(sort_token(name_toggle(order)))) == name_toggle(order),
        sort_order_for(Some(sort_token(time_toggle(order)))) == time_toggle(order),
{
    lemma_sort_token_round_trip(name_toggle(order));
    lemma_sort_token_round_trip(time_toggle(order));
}

/// The path part of a request target: everything before the first `?`.
pub open spec fn url_path_part(url: Seq<char>) -> Seq<char> {
    match first_index(url, '?') {
        Some(i) => url.take(i),
        None => url,
    }
}

/// The query part of a request target: everything after the first `?`, if
/// there is one.
pub open spec fn url_query_part(url: Seq<char>) -> Option<Seq<char>> {
    match first_index(url, '?') {
        Some(i) => Some(url.skip(i + 1)),
        None => None,
    }
}

/// Splits a request target into its path and its query string at the first `?`.
pub fn split_url(url: &str) -> (r: (String, Option<String>))
    ensures
        r.0@ == url_path_part(url@),
        match r.1 {
            Some(q) => url_query_part(url@) == Some(q@),
            None => url_query_part(url@) is None,
        },
{
    let cs = chars_of(url);
    match find_char(cs.as_slice(), '?') {
        Some(i) => {
            let path = string_from_range(cs.as_slice(), 0, i);
            let query = string_from_range(cs.as_slice(), i + 1, cs.len());
            (path, Some(query))
        },
        None => (string_from_chars(cs.as_slice()), None),
    }
}

/// The pieces of `s` between occurrences of `sep`; empty pieces are kept, so
/// there is always one more piece than separators.
pub open spec fn split_on(s: Seq<char>, sep: char) -> Seq<Seq<char>>
    decreases s.len(),
{
    if s.len() == 0 {
        seq![Seq::empty()]
    } else {
        let p = split_on(s.drop_last(), sep);
        if s.last() == sep {
            p.push(Seq::empty())
        } else {
            p.update(p.len() - 1, p.last().push(s.last()))
        }
    }
}

pub proof fn lemma_split_on_nonempty(s: Seq<char>, sep: char)
    ensures
        split_on(s, sep).len() >= 1,
    decreases s.len(),
{
    if s.len() > 0 {
        lemma_split_on_nonempty(s.drop_last(), sep);
    }
}

/// Splits characters at each `sep`.
pub fn split_chars(cs: &[char], sep: char) -> (r: Vec<Vec<char>>)
    ensures
        r@.len() == split_on(cs@, sep).len(),
        forall|k: int| 0 <= k < r@.len() ==> (#[trigger] r@[k])@ == split_on(cs@, sep)[k],
{
    let mut done: Vec<Vec<char>> = Vec::new();
    let mut cur: Vec<char> = Vec::new();
    let mut i: usize = 0;
    while i < cs.len()
        invariant
            i <= cs.len(),
            done@.len() + 1 == split_on(cs@.take(i as int), sep).len(),
            forall|k: int|
                0 <= k < done@.len() ==> (#[trigger] done@[k])@ == split_on(
                    cs@.take(i as int),
                    sep,
                )[k],
            cur@ == split_on(cs@.take(i as int), sep).last(),
        decreases cs.len() - i,
    {
        proof {
            assert(cs@.take(i + 1).drop_last() =~= cs@.take(i as int));
            lemma_split_on_nonempty(cs@.take(i as int), sep);
        }
        let c = cs[i];
        if c == sep {
            let piece = cur;
            done.push(piece);
            cur = Vec::new();
        } else {
            cur.push(c);
        }
        i += 1;
    }
    assert(cs@.take(cs.len() as int) =~= cs@);
    done.push(cur);
    done
}

/// A `key=value` pair: the text before the first `=` and the text after it.
pub open spec fn key_value(piece: Seq<char>) -> Option<(Seq<char>, Seq<char>)> {
    match first_index(piece, '=') {
        Some(i) => Some((piece.take(i), piece.skip(i + 1))),
        None => None,
    }
}

/// The value of the first `sort=` pair among the pieces.
pub open spec fn first_sort_value(pieces: Seq<Seq<char>>) -> Option<Seq<char>>
    decreases pieces.len(),
{
    if pieces.len() == 0 {
        None
    } else {
        match key_value(pieces[0]) {
            Some((k, v)) => if k == "sort"@ {
                Some(v)
            } else {
                first_sort_value(pieces.drop_first())
            },
            None => first_sort_value(pieces.drop_first()),
        }
    }
}

/// The `sort` parameter of a query string: the value of its first `&`-separated
/// pair whose key is `sort` (pairs without `=` are skipped).
pub open spec fn sort_param_of(query: Seq<char>) -> Option<Seq<char>> {
    first_sort_value(split_on(query, '&'))
}

proof fn lemma_first_sort_value_skip(pieces: Seq<Seq<char>>, i: int)
    requires
        0 <= i < pieces.len(),
    ensures
        first_sort_value(pieces.skip(i)) == match key_value(pieces[i]) {
            Some((k, v)) => if k == "sort"@ {
                Some(v)
            } else {
                first_sort_value(pieces.skip(i + 1))
            },
            None => first_sort_value(pieces.skip(i + 1)),
        },
{
    assert(pieces.skip(i).drop_first() =~= pieces.skip(i + 1));
    assert(pieces.skip(i)[0] == pieces[i]);
}

/// Finds the `sort` parameter of a query string.
pub fn sort_param(query: &str) -> (r: Option<String>)
    ensures
        match r {
            Some(v) => sort_param_of(query@) == Some(v@),
            None => sort_param_of(query@) is None,
        },
{
    let cs = chars_of(query);
    let pieces = split_chars(cs.as_slice(), '&');
    let ghost spec_pieces = split_on(query@, '&');
    let mut i: usize = 0;
    assert(spec_pieces.skip(0) =~= spec_pieces);
    while i < pieces.len()
        invariant
            i <= pieces.len(),
            spec_pieces == split_on(query@, '&'),
            pieces@.len() == spec_pieces.len(),
            forall|k: int| 0 <= k < pieces@.len() ==> (#[trigger] pieces@[k])@ == spec_pieces[k],
            first_sort_value(spec_pieces) == first_sort_value(spec_pieces.skip(i as int)),
        decreases pieces.len() - i,
    {
        let piece = &pieces[i];
        let plen = piece.len();
        assert(pieces@[i as int]@ == spec_pieces[i as int]);
        proof {
            lemma_first_sort_value_skip(spec_pieces, i as int);
            lemma_first_index_found(piece@, '=');
        }
        match find_char(piece.as_slice(), '=') {
            Some(j) => {
                assert(first_index(piece@, '=') == Some(j as int));
                assert(j < plen);
                let key = string_from_range(piece.as_slice(), 0, j);
                assert(key@ =~= piece@.take(j as int));
                if str_eq(key.as_str(), "sort") {
                    let value = string_from_range(piece.as_slice(), j + 1, plen);
                    assert(value@ =~= piece@.skip(j + 1));
                    assert(key_value(spec_pieces[i as int]) == Some((key@, value@)));
                    return Some(value);
                }
            },
            None => {},
        }
        i += 1;
    }
    assert(spec_pieces.skip(i as int) =~= Seq::<Seq<char>>::empty());
    None
}

} // verus!

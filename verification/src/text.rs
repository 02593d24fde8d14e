//! Character-level text utilities: HTML escaping and heading anchors.

use vstd::prelude::*;

verus! {

/// What `str::to_lowercase` returns for a string: its Unicode lowercase mapping.
pub uninterp spec fn lowercase(s: Seq<char>) -> Seq<char>;

/// What `char::is_alphanumeric` answers for a character (Unicode Alphabetic or Numeric).
pub uninterp spec fn alphanumeric(c: char) -> bool;

/// `String::push`: appends one character.
#[verifier::external_body]
pub(crate) fn push_char(s: &mut String, c: char)
    ensures
        final(s)@ == old(s)@.push(c),
{
    s.push(c);
}

/// `String::push_str`: appends a string slice.
#[verifier::external_body]
pub(crate) fn push_str(s: &mut String, t: &str)
    ensures
        final(s)@ == old(s)@ + t@,
{
    s.push_str(t);
}

/// `str::to_lowercase`: the Unicode lowercase form of a string. Its result is
/// named by `lowercase`; the mapping itself is left to the standard library.
#[verifier::external_body]
pub(crate) fn to_lowercase(s: &str) -> (r: String)
    ensures
        r@ == lowercase(s@),
{
    s.to_lowercase()
}

/// `char::is_alphanumeric`: whether a character is Unicode alphabetic or numeric.
/// Its answer is named by `alphanumeric`.
#[verifier::external_body]
pub(crate) fn is_alphanumeric(c: char) -> (b: bool)
    ensures
        b == alphanumeric(c),
{
    c.is_alphanumeric()
}

/// The characters of a string slice, in order.
pub fn chars_of(s: &str) -> (v: Vec<char>)
    ensures
        v@ == s@,
{
    let mut v: Vec<char> = Vec::new();
    for c in it: s.chars()
        invariant
            v@ == it.seq().take(it.index() as int),
            it.seq() == s@,
    {
        v.push(c);
    }
    v
}

/// A string made of the characters `cs[start..end]`.
pub fn string_from_range(cs: &[char], start: usize, end: usize) -> (r: String)
    requires
        start <= end <= cs@.len(),
    ensures
        r@ == cs@.subrange(start as int, end as int),
{
    let mut out = String::new();
    let mut i: usize = start;
    while i < end
        invariant
            start <= i <= end <= cs@.len(),
            out@ == cs@.subrange(start as int, i as int),
        decreases end - i,
    {
        push_char(&mut out, cs[i]);
        assert(out@ =~= cs@.subrange(start as int, i + 1));
        i += 1;
    }
    out
}

/// A string made of the given characters.
pub fn string_from_chars(cs: &[char]) -> (r: String)
    ensures
        r@ == cs@,
{
    let r = string_from_range(cs, 0, cs.len());
    assert(cs@.subrange(0, cs@.len() as int) =~= cs@);
    r
}

/// Position of the first occurrence of `c` in `s`.
pub open spec fn first_index(s: Seq<char>, c: char) -> Option<int>
    decreases s.len(),
{
    if s.len() == 0 {
        None
    } else if s[0] == c {
        Some(0)
    } else {
        match first_index(s.drop_first(), c) {
            Some(i) => Some(i + 1),
            None => None,
        }
    }
}

proof fn lemma_first_index_prefix(s: Seq<char>, c: char, i: int)
    requires
        0 <= i <= s.len(),
        forall|k: int| 0 <= k < i ==> s[k] != c,
    ensures
        first_index(s, c) == (match first_index(s.skip(i), c) {
            Some(j) => Some(j + i),
            None => None::<int>,
        }),
    decreases i,
{
    if i > 0 {
        assert(s.drop_first().skip(i - 1) =~= s.skip(i));
        lemma_first_index_prefix(s.drop_first(), c, i - 1);
    } else {
        assert(s.skip(0) =~= s);
    }
}

/// Where `c` first occurs in `cs`.
pub fn find_char(cs: &[char], c: char) -> (r: Option<usize>)
    ensures
        r matches Some(i) ==> first_index(cs@, c) == Some(i as int),
        r is None ==> first_index(cs@, c) is None,
        first_index(cs@, c) matches Some(i) ==> 0 <= i < cs@.len() && cs@[i] == c && forall|
            k: int,
        | 0 <= k < i ==> cs@[k] != c,
{
    let mut i: usize = 0;
    while i < cs.len()
        invariant
            i <= cs.len(),
            forall|k: int| 0 <= k < i ==> cs@[k] != c,
        decreases cs.len() - i,
    {
        if cs[i] == c {
            proof {
                lemma_first_index_prefix(cs@, c, i as int);
                lemma_first_index_found(cs@, c);
            }
            return Some(i);
        }
        i += 1;
    }
    proof {
        lemma_first_index_prefix(cs@, c, i as int);
        lemma_first_index_found(cs@, c);
    }
    None
}

/// A found position holds `c`, and nothing before it does.
pub proof fn lemma_first_index_found(s: Seq<char>, c: char)
    ensures
        first_index(s, c) matches Some(i) ==> 0 <= i < s.len() && s[i] == c && forall|k: int|
            0 <= k < i ==> s[k] != c,
    decreases s.len(),
{
    if s.len() > 0 && s[0] != c {
        lemma_first_index_found(s.drop_first(), c);
        if let Some(i) = first_index(s, c) {
            assert forall|k: int| 0 <= k < i implies s[k] != c by {
                if k > 0 {
                    assert(s[k] == s.drop_first()[k - 1]);
                }
            }
        }
    }
}

/// Whether `s` begins with `prefix`.
pub fn starts_with(s: &str, prefix: &str) -> (r: bool)
    ensures
        r == (prefix@.len() <= s@.len() && s@.take(prefix@.len() as int) == prefix@),
{
    let a = chars_of(s);
    let p = chars_of(prefix);
    if p.len() > a.len() {
        return false;
    }
    let mut i: usize = 0;
    while i < p.len()
        invariant
            a@ == s@,
            p@ == prefix@,
            p.len() <= a.len(),
            i <= p.len(),
            forall|k: int| 0 <= k < i ==> a@[k] == p@[k],
        decreases p.len() - i,
    {
        if a[i] != p[i] {
            assert(s@.take(p@.len() as int)[i as int] != prefix@[i as int]);
            return false;
        }
        i += 1;
    }
    assert(s@.take(p@.len() as int) =~= prefix@);
    true
}

/// Whether `s` ends with `suffix`.
pub fn ends_with(s: &str, suffix: &str) -> (r: bool)
    ensures
        r == (suffix@.len() <= s@.len() && s@.skip(s@.len() - suffix@.len()) == suffix@),
{
    let a = chars_of(s);
    let p = chars_of(suffix);
    if p.len() > a.len() {
        return false;
    }
    let off = a.len() - p.len();
    let mut i: usize = 0;
    while i < p.len()
        invariant
            a@ == s@,
            p@ == suffix@,
            off + p.len() == a.len(),
            i <= p.len(),
            forall|k: int| 0 <= k < i ==> a@[off + k] == p@[k],
        decreases p.len() - i,
    {
        if a[off + i] != p[i] {
            assert(s@.skip(off as int)[i as int] != suffix@[i as int]);
            return false;
        }
        i += 1;
    }
    assert(s@.skip(off as int) =~= suffix@);
    true
}

/// Whether two string slices hold the same characters.
pub fn str_eq(a: &str, b: &str) -> (r: bool)
    ensures
        r == (a@ == b@),
{
    let x = chars_of(a);
    let y = chars_of(b);
    if x.len() != y.len() {
        return false;
    }
    let mut i: usize = 0;
    while i < x.len()
        invariant
            x@ == a@,
            y@ == b@,
            x.len() == y.len(),
            i <= x.len(),
            forall|k: int| 0 <= k < i ==> x@[k] == y@[k],
        decreases x.len() - i,
    {
        if x[i] != y[i] {
            assert(x@[i as int] != y@[i as int]);
            return false;
        }
        i += 1;
    }
    assert(x@ =~= y@);
    true
}

/// The HTML entity that stands for a character, or the character itself.
pub open spec fn escape_char(c: char) -> Seq<char> {
    if c == '&' {
        seq!['&', 'a', 'm', 'p', ';']
    } else if c == '<' {
        seq!['&', 'l', 't', ';']
    } else if c == '>' {
        seq!['&', 'g', 't', ';']
    } else if c == '"' {
        seq!['&', 'q', 'u', 'o', 't', ';']
    } else if c == '\'' {
        seq!['&', '#', '3', '9', ';']
    } else {
        seq![c]
    }
}

/// A text with each of `& < > " '` replaced by its entity.
pub open spec fn html_escaped(s: Seq<char>) -> Seq<char>
    decreases s.len(),
{
    if s.len() == 0 {
        Seq::empty()
    } else {
        html_escaped(s.drop_last()) + escape_char(s.last())
    }
}

/// Escapes the five characters that are markup in HTML text and attributes.
pub fn html_escape(s: &str) -> (r: String)
    ensures
        r@ == html_escaped(s@),
{
    let mut out = String::new();
    let mut i: usize = 0;
    let cs = chars_of(s);
    while i < cs.len()
        invariant
            cs@ == s@,
            i <= cs.len(),
            out@ == html_escaped(cs@.take(i as int)),
        decreases cs.len() - i,
    {
        let c = cs[i];
        proof {
            assert(cs@.take(i + 1).drop_last() =~= cs@.take(i as int));
        }
        if c == '&' {
            push_str(&mut out, "&amp;");
            proof { reveal_strlit("&amp;"); }
        } else if c == '<' {
            push_str(&mut out, "&lt;");
            proof { reveal_strlit("&lt;"); }
        } else if c == '>' {
            push_str(&mut out, "&gt;");
            proof { reveal_strlit("&gt;"); }
        } else if c == '"' {
            push_str(&mut out, "&quot;");
            proof { reveal_strlit("&quot;"); }
        } else if c == '\'' {
            push_str(&mut out, "&#39;");
            proof { reveal_strlit("&#39;"); }
        } else {
            push_char(&mut out, c);
        }
        assert(out@ =~= html_escaped(cs@.take(i + 1)));
        i += 1;
    }
    assert(cs@.take(cs.len() as int) =~= cs@);
    out
}


/// Escaping distributes over concatenation.
pub proof fn lemma_escaped_concat(a: Seq<char>, b: Seq<char>)
    ensures
        html_escaped(a + b) == html_escaped(a) + html_escaped(b),
    decreases b.len(),
{
    if b.len() == 0 {
        assert(a + b =~= a);
        assert(html_escaped(a) + html_escaped(b) =~= html_escaped(a));
    } else {
        lemma_escaped_concat(a, b.drop_last());
        assert((a + b).drop_last() =~= a + b.drop_last());
        assert((a + b).last() == b.last());
        assert(html_escaped(a) + html_escaped(b) =~= html_escaped(a) + html_escaped(b.drop_last())
            + escape_char(b.last()));
    }
}

/// Each markup character is written as its entity (`&amp;`, `&lt;`, `&gt;`,
/// `&quot;`, `&#39;`) wherever it stands, and the text around it is escaped
/// on its own.
pub proof fn lemma_escape_entities(a: Seq<char>, c: char, b: Seq<char>)
    ensures
        c == '&' ==> html_escaped(a + seq![c] + b) == html_escaped(a) + "&amp;"@ + html_escaped(b),
        c == '<' ==> html_escaped(a + seq![c] + b) == html_escaped(a) + "&lt;"@ + html_escaped(b),
        c == '>' ==> html_escaped(a + seq![c] + b) == html_escaped(a) + "&gt;"@ + html_escaped(b),
        c == '"' ==> html_escaped(a + seq![c] + b) == html_escaped(a) + "&quot;"@ + html_escaped(
            b,
        ),
        c == '\'' ==> html_escaped(a + seq![c] + b) == html_escaped(a) + "&#39;"@ + html_escaped(
            b,
        ),
        c != '&' && c != '<' && c != '>' && c != '"' && c != '\'' ==> html_escaped(
            a + seq![c] + b,
        ) == html_escaped(a) + seq![c] + html_escaped(b),
{
    reveal_strlit("&amp;");
    reveal_strlit("&lt;");
    reveal_strlit("&gt;");
    reveal_strlit("&quot;");
    reveal_strlit("&#39;");
    lemma_escaped_concat(a + seq![c], b);
    lemma_escaped_concat(a, seq![c]);
    assert(seq![c].drop_last() =~= Seq::<char>::empty());
    assert(seq![c].last() == c);
    assert(html_escaped(Seq::<char>::empty()) =~= Seq::<char>::empty());
    assert(html_escaped(seq![c]) =~= escape_char(c));
    assert("&amp;"@ =~= escape_char('&'));
    assert("&lt;"@ =~= escape_char('<'));
    assert("&gt;"@ =~= escape_char('>'));
    assert("&quot;"@ =~= escape_char('"'));
    assert("&#39;"@ =~= escape_char('\''));
}

/// Escaped text holds no `<`, `>`, `"` or `'`: it cannot open a tag or close
/// an attribute value.
pub proof fn lemma_escaped_has_no_markup(s: Seq<char>)
    ensures
        forall|i: int|
            0 <= i < html_escaped(s).len() ==> {
                let c = #[trigger] html_escaped(s)[i];
                c != '<' && c != '>' && c != '"' && c != '\''
            },
    decreases s.len(),
{
    if s.len() > 0 {
        lemma_escaped_has_no_markup(s.drop_last());
        let p = html_escaped(s.drop_last());
        let e = escape_char(s.last());
        assert forall|i: int| 0 <= i < html_escaped(s).len() implies {
            let c = #[trigger] html_escaped(s)[i];
            c != '<' && c != '>' && c != '"' && c != '\''
        } by {
            if i < p.len() {
                assert(html_escaped(s)[i] == p[i]);
            } else {
                assert(html_escaped(s)[i] == e[i - p.len()]);
            }
        }
    }
}

/// Reads the entities that `html_escape` writes back into characters.
pub open spec fn html_unescaped(s: Seq<char>) -> Seq<char>
    decreases s.len(),
{
    if s.len() == 0 {
        Seq::empty()
    } else if s.len() >= 5 && s.take(5) == escape_char('&') {
        seq!['&'] + html_unescaped(s.skip(5))
    } else if s.len() >= 4 && s.take(4) == escape_char('<') {
        seq!['<'] + html_unescaped(s.skip(4))
    } else if s.len() >= 4 && s.take(4) == escape_char('>') {
        seq!['>'] + html_unescaped(s.skip(4))
    } else if s.len() >= 6 && s.take(6) == escape_char('"') {
        seq!['"'] + html_unescaped(s.skip(6))
    } else if s.len() >= 5 && s.take(5) == escape_char('\'') {
        seq!['\''] + html_unescaped(s.skip(5))
    } else {
        seq![s[0]] + html_unescaped(s.skip(1))
    }
}

proof fn lemma_prefix_mismatch(s: Seq<char>, t: Seq<char>, j: int)
    requires
        0 <= j < t.len(),
        s[j] != t[j],
    ensures
        t.len() <= s.len() ==> s.take(t.len() as int) != t,
{
    if t.len() <= s.len() {
        assert(s.take(t.len() as int)[j] == s[j]);
    }
}

proof fn lemma_unescape_step(c: char, rest: Seq<char>)
    ensures
        html_unescaped(escape_char(c) + rest) == seq![c] + html_unescaped(rest),
{
    let e = escape_char(c);
    let s = e + rest;
    assert(s.skip(e.len() as int) =~= rest);
    assert(s.take(e.len() as int) =~= e);
    assert(s[0] == e[0]);
    if e.len() > 1 {
        assert(s[1] == e[1]);
    }
    let amp = escape_char('&');
    let lt = escape_char('<');
    let gt = escape_char('>');
    let quot = escape_char('"');
    let apos = escape_char('\'');
    if c == '&' {
    } else if c == '<' {
        lemma_prefix_mismatch(s, amp, 1);
    } else if c == '>' {
        lemma_prefix_mismatch(s, amp, 1);
        lemma_prefix_mismatch(s, lt, 1);
    } else if c == '"' {
        lemma_prefix_mismatch(s, amp, 1);
        lemma_prefix_mismatch(s, lt, 1);
        lemma_prefix_mismatch(s, gt, 1);
    } else if c == '\'' {
        lemma_prefix_mismatch(s, amp, 1);
        lemma_prefix_mismatch(s, lt, 1);
        lemma_prefix_mismatch(s, gt, 1);
        lemma_prefix_mismatch(s, quot, 1);
    } else {
        lemma_prefix_mismatch(s, amp, 0);
        lemma_prefix_mismatch(s, lt, 0);
        lemma_prefix_mismatch(s, gt, 0);
        lemma_prefix_mismatch(s, quot, 0);
        lemma_prefix_mismatch(s, apos, 0);
    }
}

/// Escaping loses nothing: reading the entities back gives the text that was escaped.
pub proof fn lemma_unescape_escape(s: Seq<char>)
    ensures
        html_unescaped(html_escaped(s)) == s,
    decreases s.len(),
{
    if s.len() > 0 {
        let c = s[0];
        let rest = s.drop_first();
        assert(s =~= seq![c] + rest);
        lemma_escaped_concat(seq![c], rest);
        assert(seq![c].drop_last() =~= Seq::<char>::empty());
        assert(seq![c].last() == c);
        assert(html_escaped(Seq::<char>::empty()) =~= Seq::<char>::empty());
        assert(html_escaped(seq![c]) =~= escape_char(c));
        lemma_unescape_step(c, html_escaped(rest));
        lemma_unescape_escape(rest);
        assert(seq![c] + rest =~= s);
    }
}


/// Whether a heading character survives into its anchor.
pub open spec fn anchor_keeps(c: char) -> bool {
    alphanumeric(c) || c == ' ' || c == '-'
}

/// The anchor for already lowercased heading text: alphanumerics, spaces and
/// dashes are kept, in order, with each space turned into a dash.
pub open spec fn anchor_chars(s: Seq<char>) -> Seq<char>
    decreases s.len(),
{
    if s.len() == 0 {
        Seq::empty()
    } else {
        let p = anchor_chars(s.drop_last());
        let c = s.last();
        if anchor_keeps(c) {
            p.push(if c == ' ' { '-' } else { c })
        } else {
            p
        }
    }
}

/// Every character of an anchor is a dash or alphanumeric, and the anchor is
/// no longer than the text it was made from.
pub proof fn lemma_anchor_chars_shape(s: Seq<char>)
    ensures
        anchor_chars(s).len() <= s.len(),
        forall|i: int|
            0 <= i < anchor_chars(s).len() ==> {
                let c = #[trigger] anchor_chars(s)[i];
                c == '-' || alphanumeric(c)
            },
    decreases s.len(),
{
    if s.len() > 0 {
        lemma_anchor_chars_shape(s.drop_last());
    }
}

/// What a kept heading character becomes in the anchor.
pub open spec fn anchor_char(c: char) -> char {
    if c == ' ' {
        '-'
    } else {
        c
    }
}

/// The anchor is exactly the kept characters of the text, all of them and in
/// order, with spaces as dashes: nothing is cut off.
pub proof fn lemma_anchor_is_every_kept_char(s: Seq<char>)
    ensures
        anchor_chars(s) == s.filter(|c: char| alphanumeric(c) || c == ' ' || c == '-').map_values(|c: char| anchor_char(c)),
        anchor_chars(s).len() == s.filter(|c: char| alphanumeric(c) || c == ' ' || c == '-').len(),
    decreases s.len(),
{
    reveal(Seq::filter);
    if s.len() > 0 {
        lemma_anchor_is_every_kept_char(s.drop_last());
        let f = s.drop_last().filter(|c: char| alphanumeric(c) || c == ' ' || c == '-');
        if anchor_keeps(s.last()) {
            assert(f.push(s.last()).map_values(|c: char| anchor_char(c)) =~= f.map_values(
                |c: char| anchor_char(c),
            ).push(anchor_char(s.last())));
        }
    } else {
        assert(s.filter(|c: char| alphanumeric(c) || c == ' ' || c == '-').map_values(|c: char| anchor_char(c))
            =~= Seq::<char>::empty());
    }
}

/// The anchor for already lowercased text: alphanumerics, spaces and dashes
/// kept, spaces turned into dashes.
pub fn anchor_from_lowercase(lower: &str) -> (r: String)
    ensures
        r@ == anchor_chars(lower@),
        r@ == lower@.filter(|c: char| alphanumeric(c) || c == ' ' || c == '-').map_values(|c: char| anchor_char(c)),
        forall|i: int| 0 <= i < r@.len() ==> r@[i] == '-' || alphanumeric(#[trigger] r@[i]),
{
    let cs = chars_of(lower);
    let mut out = String::new();
    let mut i: usize = 0;
    while i < cs.len()
        invariant
            cs@ == lower@,
            i <= cs.len(),
            out@ == anchor_chars(cs@.take(i as int)),
        decreases cs.len() - i,
    {
        let c = cs[i];
        proof {
            assert(cs@.take(i + 1).drop_last() =~= cs@.take(i as int));
        }
        if is_alphanumeric(c) || c == ' ' || c == '-' {
            if c == ' ' {
                push_char(&mut out, '-');
            } else {
                push_char(&mut out, c);
            }
        }
        i += 1;
    }
    assert(cs@.take(cs.len() as int) =~= cs@);
    proof {
        lemma_anchor_chars_shape(cs@);
        lemma_anchor_is_every_kept_char(cs@);
    }
    out
}

/// The `id` of a heading: its text lowercased, stripped of everything but
/// alphanumerics, spaces and dashes, with spaces turned into dashes.
pub fn to_tag_anchor(name: &str) -> (r: String)
    ensures
        r@ == anchor_chars(lowercase(name@)),
        r@ == lowercase(name@).filter(|c: char| alphanumeric(c) || c == ' ' || c == '-').map_values(|c: char| anchor_char(c)),
        forall|i: int| 0 <= i < r@.len() ==> r@[i] == '-' || alphanumeric(#[trigger] r@[i]),
{
    let lower = to_lowercase(name);
    proof {
        lemma_anchor_is_every_kept_char(lowercase(name@));
    }
    anchor_from_lowercase(lower.as_str())
}

} // verus!

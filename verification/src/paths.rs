//! Request paths as paths relative to the served directory: trimming,
//! components, breadcrumbs, joining, file names and extensions.

use vstd::prelude::*;
use crate::query::{split_chars, split_on};
use crate::text::{chars_of, push_char, string_from_chars, string_from_range};

verus! {

/// A piece of a path that names no directory: empty (from a doubled or
/// trailing `/`) or `.`.
pub open spec fn is_skipped(piece: Seq<char>) -> bool {
    piece.len() == 0 || piece == seq!['.']
}

/// Pieces with the skipped ones at the front removed.
pub open spec fn trim_front(pieces: Seq<Seq<char>>) -> Seq<Seq<char>>
    decreases pieces.len(),
{
    if pieces.len() > 0 && is_skipped(pieces[0]) {
        trim_front(pieces.drop_first())
    } else {
        pieces
    }
}

/// Pieces with the skipped ones at the back removed.
pub open spec fn trim_back(pieces: Seq<Seq<char>>) -> Seq<Seq<char>>
    decreases pieces.len(),
{
    if pieces.len() > 0 && is_skipped(pieces.last()) {
        trim_back(pieces.drop_last())
    } else {
        pieces
    }
}

/// Pieces joined with `/` between them.
pub open spec fn join_pieces(pieces: Seq<Seq<char>>) -> Seq<char>
    decreases pieces.len(),
{
    if pieces.len() == 0 {
        Seq::empty()
    } else if pieces.len() == 1 {
        pieces[0]
    } else {
        join_pieces(pieces.drop_last()) + seq!['/'] + pieces.last()
    }
}

/// The path below the served directory that a decoded request path names:
/// the text after its leading `/`, less any empty or `.` pieces at either
/// end. A path that does not start with `/` names none.
pub open spec fn relative_part(path: Seq<char>) -> Option<Seq<char>> {
    if path.len() > 0 && path[0] == '/' {
        Some(join_pieces(trim_back(trim_front(split_on(path.skip(1), '/')))))
    } else {
        None
    }
}

/// The pieces of a relative path that are not skipped, in order.
pub open spec fn kept_pieces(pieces: Seq<Seq<char>>) -> Seq<Seq<char>>
    decreases pieces.len(),
{
    if pieces.len() == 0 {
        Seq::empty()
    } else if is_skipped(pieces.last()) {
        kept_pieces(pieces.drop_last())
    } else {
        kept_pieces(pieces.drop_last()).push(pieces.last())
    }
}

proof fn lemma_join_push(pieces: Seq<Seq<char>>, x: Seq<char>)
    requires
        pieces.len() >= 1,
    ensures
        join_pieces(pieces.push(x)) == join_pieces(pieces) + seq!['/'] + x,
{
    assert(pieces.push(x).drop_last() =~= pieces);
}

proof fn lemma_join_update_last(pieces: Seq<Seq<char>>, x: Seq<char>)
    requires
        pieces.len() >= 1,
    ensures
        join_pieces(pieces.update(pieces.len() - 1, x)) == if pieces.len() == 1 {
            x
        } else {
            join_pieces(pieces.drop_last()) + seq!['/'] + x
        },
{
    let u = pieces.update(pieces.len() - 1, x);
    if pieces.len() > 1 {
        assert(u.drop_last() =~= pieces.drop_last());
    }
}

/// Splitting at `/` and joining with `/` gives the text back.
pub proof fn lemma_join_split(s: Seq<char>)
    ensures
        join_pieces(split_on(s, '/')) == s,
    decreases s.len(),
{
    if s.len() > 0 {
        let p = split_on(s.drop_last(), '/');
        lemma_join_split(s.drop_last());
        crate::query::lemma_split_on_nonempty(s.drop_last(), '/');
        if s.last() == '/' {
            lemma_join_push(p, Seq::empty());
        } else {
            lemma_join_update_last(p, p.last().push(s.last()));
            if p.len() > 1 {
                assert(p =~= p.drop_last().push(p.last()));
                lemma_join_push(p.drop_last(), p.last());
            }
        }
        assert(s =~= s.drop_last().push(s.last()));
    }
}

/// A path with no empty and no `.` piece: no doubled, leading or trailing
/// `/`, and no `.` directory.
pub open spec fn is_clean(rel: Seq<char>) -> bool {
    forall|i: int| 0 <= i < split_on(rel, '/').len() ==> !is_skipped(#[trigger] split_on(rel, '/')[i])
}

/// A clean relative path, requested with a leading `/`, names itself; so
/// does the empty path, requested as `/`.
pub proof fn lemma_relative_part_of_clean(rel: Seq<char>)
    requires
        is_clean(rel) || rel.len() == 0,
    ensures
        relative_part(seq!['/'] + rel) == Some(rel),
{
    let path = seq!['/'] + rel;
    assert(path.skip(1) =~= rel);
    let pieces = split_on(rel, '/');
    crate::query::lemma_split_on_nonempty(rel, '/');
    lemma_join_split(rel);
    if rel.len() == 0 {
        assert(pieces =~= seq![Seq::<char>::empty()]);
        assert(trim_front(pieces.drop_first()) =~= Seq::<Seq<char>>::empty());
        assert(join_pieces(Seq::<Seq<char>>::empty()) =~= rel);
    } else {
        assert(!is_skipped(pieces[0]));
        assert(!is_skipped(pieces.last()));
    }
}

/// The components of a relative path: its `/`-separated pieces, less empty
/// and `.` ones (`..` is kept).
pub open spec fn components(rel: Seq<char>) -> Seq<Seq<char>> {
    kept_pieces(split_on(rel, '/'))
}

/// Joins `pieces[lo..hi]` with `/`.
fn join_range(pieces: &Vec<Vec<char>>, lo: usize, hi: usize) -> (r: String)
    requires
        lo <= hi <= pieces@.len(),
    ensures
        r@ == join_pieces(pieces@.subrange(lo as int, hi as int).map_values(|v: Vec<char>| v@)),
{
    let mut out = String::new();
    let mut i: usize = lo;
    while i < hi
        invariant
            lo <= i <= hi <= pieces@.len(),
            out@ == join_pieces(pieces@.subrange(lo as int, i as int).map_values(|v: Vec<char>| v@)),
        decreases hi - i,
    {
        let ghost before = out@;
        if i > lo {
            push_char(&mut out, '/');
        }
        let piece = &pieces[i];
        let mut k: usize = 0;
        let ghost mid = out@;
        while k < piece.len()
            invariant
                k <= piece@.len(),
                out@ == mid + piece@.take(k as int),
            decreases piece@.len() - k,
        {
            push_char(&mut out, piece[k]);
            assert(out@ =~= mid + piece@.take(k + 1));
            k += 1;
        }
        proof {
            let s = pieces@.subrange(lo as int, i + 1).map_values(|v: Vec<char>| v@);
            assert(s.drop_last() =~= pieces@.subrange(lo as int, i as int).map_values(
                |v: Vec<char>| v@,
            ));
            assert(piece@.take(piece@.len() as int) =~= piece@);
            if i > lo {
                assert(out@ =~= before + seq!['/'] + s.last());
            } else {
                assert(s.len() == 1);
                assert(out@ =~= s[0]);
            }
        }
        i += 1;
    }
    out
}

/// The path below the served directory that a decoded request path names,
/// or `None` when the path does not start with `/`.
pub fn relative_path(path: &str) -> (r: Option<String>)
    ensures
        match r {
            Some(rel) => relative_part(path@) == Some(rel@),
            None => relative_part(path@) is None,
        },
{
    let cs = chars_of(path);
    if cs.len() == 0 || cs[0] != '/' {
        return None;
    }
    let tail = string_from_range(cs.as_slice(), 1, cs.len());
    let tail_cs = chars_of(tail.as_str());
    assert(tail_cs@ =~= path@.skip(1));
    let pieces = split_chars(tail_cs.as_slice(), '/');
    let ghost all = split_on(path@.skip(1), '/');
    assert(pieces@.map_values(|v: Vec<char>| v@) =~= all);
    let n = pieces.len();
    let mut lo: usize = 0;
    assert(all.subrange(0, n as int) =~= all);
    while lo < n && (pieces[lo].len() == 0 || (pieces[lo].len() == 1 && pieces[lo][0] == '.'))
        invariant
            lo <= n == pieces@.len() == all.len(),
            pieces@.map_values(|v: Vec<char>| v@) == all,
            trim_front(all) == trim_front(all.subrange(lo as int, n as int)),
        decreases n - lo,
    {
        proof {
            let rest = all.subrange(lo as int, n as int);
            assert(rest[0] == pieces@[lo as int]@);
            assert(is_skipped(rest[0])) by {
                if pieces@[lo as int]@.len() == 1 {
                    assert(pieces@[lo as int]@ =~= seq!['.']);
                }
            }
            assert(rest.drop_first() =~= all.subrange(lo + 1, n as int));
        }
        lo += 1;
    }
    proof {
        let rest = all.subrange(lo as int, n as int);
        if lo < n {
            assert(rest[0] == pieces@[lo as int]@);
            assert(!is_skipped(rest[0])) by {
                if rest[0] == seq!['.'] {
                    assert(rest[0].len() == 1 && rest[0][0] == '.');
                }
            }
        }
        assert(trim_front(all) == rest);
    }
    let mut hi: usize = n;
    while hi > lo && (pieces[hi - 1].len() == 0 || (pieces[hi - 1].len() == 1 && pieces[hi
        - 1][0] == '.'))
        invariant
            lo <= hi <= n == pieces@.len() == all.len(),
            pieces@.map_values(|v: Vec<char>| v@) == all,
            trim_back(all.subrange(lo as int, n as int)) == trim_back(
                all.subrange(lo as int, hi as int),
            ),
        decreases hi - lo,
    {
        proof {
            let rest = all.subrange(lo as int, hi as int);
            assert(rest.last() == pieces@[hi - 1]@);
            assert(is_skipped(rest.last())) by {
                if pieces@[hi - 1]@.len() == 1 {
                    assert(pieces@[hi - 1]@ =~= seq!['.']);
                }
            }
            assert(rest.drop_last() =~= all.subrange(lo as int, hi - 1));
        }
        hi -= 1;
    }
    proof {
        let rest = all.subrange(lo as int, hi as int);
        if hi > lo {
            assert(rest.last() == pieces@[hi - 1]@);
            assert(!is_skipped(rest.last())) by {
                if rest.last() == seq!['.'] {
                    assert(rest.last().len() == 1 && rest.last()[0] == '.');
                }
            }
        }
        assert(trim_back(all.subrange(lo as int, hi as int)) == rest);
        assert(pieces@.subrange(lo as int, hi as int).map_values(|v: Vec<char>| v@) =~= rest);
    }
    Some(join_range(&pieces, lo, hi))
}

/// The components of a relative path, as strings.
pub fn path_components(rel: &str) -> (r: Vec<String>)
    ensures
        r@.len() == components(rel@).len(),
        forall|i: int| 0 <= i < r@.len() ==> (#[trigger] r@[i])@ == components(rel@)[i],
{
    let cs = chars_of(rel);
    let pieces = split_chars(cs.as_slice(), '/');
    let ghost all = split_on(rel@, '/');
    assert(pieces@.map_values(|v: Vec<char>| v@) =~= all);
    let mut out: Vec<String> = Vec::new();
    let mut i: usize = 0;
    while i < pieces.len()
        invariant
            i <= pieces@.len() == all.len(),
            pieces@.map_values(|v: Vec<char>| v@) == all,
            out@.len() == kept_pieces(all.take(i as int)).len(),
            forall|k: int|
                0 <= k < out@.len() ==> (#[trigger] out@[k])@ == kept_pieces(all.take(i as int))[k],
        decreases pieces@.len() - i,
    {
        let piece = &pieces[i];
        proof {
            assert(all.take(i + 1).drop_last() =~= all.take(i as int));
            assert(all.take(i + 1).last() == piece@);
        }
        let skipped = piece.len() == 0 || (piece.len() == 1 && piece[0] == '.');
        proof {
            if piece@.len() == 1 && piece@[0] == '.' {
                assert(piece@ =~= seq!['.']);
            }
            if piece@ == seq!['.'] {
                assert(piece@.len() == 1 && piece@[0] == '.');
            }
            assert(skipped == is_skipped(piece@));
        }
        if !skipped {
            out.push(string_from_chars(piece.as_slice()));
        }
        i += 1;
    }
    assert(all.take(pieces@.len() as int) =~= all);
    out
}

/// One step of a directory trail: a component and the path up to it.
pub struct Breadcrumb {
    pub name: String,
    pub path: String,
}

/// The trail of a relative path: for each component, its name and the path
/// made of it and the components before it, joined with `/`.
pub fn breadcrumbs(rel: &str) -> (r: Vec<Breadcrumb>)
    ensures
        r@.len() == components(rel@).len(),
        forall|i: int|
            0 <= i < r@.len() ==> {
                &&& (#[trigger] r@[i]).name@ == components(rel@)[i]
                &&& r@[i].path@ == join_pieces(components(rel@).take(i + 1))
            },
{
    let comps = path_components(rel);
    let ghost cv = components(rel@);
    let mut out: Vec<Breadcrumb> = Vec::new();
    let mut cumulative = String::new();
    let mut i: usize = 0;
    while i < comps.len()
        invariant
            i <= comps@.len() == cv.len(),
            forall|k: int| 0 <= k < comps@.len() ==> (#[trigger] comps@[k])@ == cv[k],
            out@.len() == i,
            i > 0 ==> cumulative@ == join_pieces(cv.take(i as int)),
            i == 0 ==> cumulative@ == Seq::<char>::empty(),
            forall|k: int|
                0 <= k < i ==> {
                    &&& (#[trigger] out@[k]).name@ == cv[k]
                    &&& out@[k].path@ == join_pieces(cv.take(k + 1))
                },
        decreases comps@.len() - i,
    {
        let name = comps[i].clone();
        assert(name@ == cv[i as int]);
        let ghost before = cumulative@;
        if i > 0 {
            push_char(&mut cumulative, '/');
        }
        crate::text::push_str(&mut cumulative, name.as_str());
        proof {
            let t = cv.take(i + 1);
            assert(t.last() == cv[i as int]);
            if i > 0 {
                assert(t.drop_last() =~= cv.take(i as int));
                assert(t.len() > 1);
                assert(join_pieces(t) == join_pieces(t.drop_last()) + seq!['/'] + t.last());
                assert(before == join_pieces(cv.take(i as int)));
                assert(cumulative@ =~= before + seq!['/'] + name@);
                assert(join_pieces(t.drop_last()) == before);
                assert(t.last() == name@);
                assert(join_pieces(t) == before + seq!['/'] + name@);
            } else {
                assert(t.len() == 1);
                assert(cumulative@ =~= join_pieces(t));
            }
        }
        let path = cumulative.clone();
        out.push(Breadcrumb { name, path });
        i += 1;
    }
    out
}

/// `base` with `name` pushed on, as a path buffer pushes a relative piece:
/// an absolute `name` replaces the base, an empty base or one ending in `/`
/// takes `name` as it is, any other base takes a `/` first.
pub open spec fn joined(base: Seq<char>, name: Seq<char>) -> Seq<char> {
    if name.len() > 0 && name[0] == '/' {
        name
    } else if base.len() == 0 || base.last() == '/' {
        base + name
    } else {
        base + seq!['/'] + name
    }
}

/// Pushes `name` onto the path `base`.
pub fn join_path(base: &str, name: &str) -> (r: String)
    ensures
        r@ == joined(base@, name@),
{
    let b = chars_of(base);
    let n = chars_of(name);
    if n.len() > 0 && n[0] == '/' {
        return string_from_chars(n.as_slice());
    }
    let mut out = string_from_chars(b.as_slice());
    if b.len() > 0 && b[b.len() - 1] != '/' {
        push_char(&mut out, '/');
    }
    crate::text::push_str(&mut out, name);
    out
}

/// The last component of a relative path, unless it is `..`.
pub open spec fn file_name_of(rel: Seq<char>) -> Option<Seq<char>> {
    let comps = components(rel);
    if comps.len() == 0 || comps.last() == seq!['.', '.'] {
        None
    } else {
        Some(comps.last())
    }
}

/// Position of the last occurrence of `c` in `s`.
pub open spec fn last_index(s: Seq<char>, c: char) -> Option<int>
    decreases s.len(),
{
    if s.len() == 0 {
        None
    } else if s.last() == c {
        Some(s.len() - 1)
    } else {
        last_index(s.drop_last(), c)
    }
}

/// The extension of a relative path: the text after the last `.` of its
/// file name, when that `.` is not the name's first character.
pub open spec fn extension_of(rel: Seq<char>) -> Option<Seq<char>> {
    match file_name_of(rel) {
        Some(name) => match last_index(name, '.') {
            Some(i) => if i == 0 {
                None
            } else {
                Some(name.skip(i + 1))
            },
            None => None,
        },
        None => None,
    }
}

/// The file name of a relative path.
pub fn file_name(rel: &str) -> (r: Option<String>)
    ensures
        match r {
            Some(n) => file_name_of(rel@) == Some(n@),
            None => file_name_of(rel@) is None,
        },
{
    let comps = path_components(rel);
    if comps.len() == 0 {
        return None;
    }
    let last = comps[comps.len() - 1].clone();
    let lc = chars_of(last.as_str());
    proof {
        if lc@.len() == 2 && lc@[0] == '.' && lc@[1] == '.' {
            assert(lc@ =~= seq!['.', '.']);
        }
        if lc@ == seq!['.', '.'] {
            assert(lc@.len() == 2 && lc@[0] == '.' && lc@[1] == '.');
        }
    }
    if lc.len() == 2 && lc[0] == '.' && lc[1] == '.' {
        None
    } else {
        Some(last)
    }
}

/// The extension of a relative path.
pub fn extension(rel: &str) -> (r: Option<String>)
    ensures
        match r {
            Some(e) => extension_of(rel@) == Some(e@),
            None => extension_of(rel@) is None,
        },
{
    match file_name(rel) {
        Some(name) => {
            let cs = chars_of(name.as_str());
            let mut i: usize = cs.len();
            assert(cs@.take(cs@.len() as int) =~= cs@);
            while i > 0 && cs[i - 1] != '.'
                invariant
                    i <= cs@.len(),
                    last_index(cs@, '.') == last_index(cs@.take(i as int), '.'),
                decreases i,
            {
                assert(cs@.take(i as int).drop_last() =~= cs@.take(i - 1));
                i -= 1;
            }
            if i == 0 {
                assert(cs@.take(0) =~= Seq::<char>::empty());
                None
            } else {
                assert(cs@.take(i as int).last() == '.');
                if i == 1 {
                    None
                } else {
                    let ext = string_from_range(cs.as_slice(), i, cs.len());
                    assert(ext@ =~= cs@.skip(i as int));
                    Some(ext)
                }
            }
        },
        None => None,
    }
}

} // verus!

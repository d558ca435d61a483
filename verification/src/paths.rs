//! Paths held as strings. Both `/` and `\` separate components, as they do for
//! `std::path::Path` on Windows; joining puts a `/` between base and name, which
//! both systems accept.
use vstd::prelude::*;

use crate::text::{chars_of, slice_vec, string_of};

verus! {

/// Whether `c` separates the components of a path.
pub open spec fn is_sep(c: char) -> bool {
    c == '/' || c == '\\'
}

/// `p` without trailing separators and trailing `.` components, keeping a lone root.
pub open spec fn rstrip(p: Seq<char>) -> Seq<char>
    decreases p.len(),
{
    if p.len() > 1 && is_sep(p.last()) {
        rstrip(p.drop_last())
    } else if p.len() > 1 && p.last() == '.' && is_sep(p[p.len() - 2]) {
        rstrip(p.drop_last())
    } else {
        p
    }
}

/// The position of the last separator in `p`, or -1.
pub open spec fn last_slash(p: Seq<char>) -> int
    decreases p.len(),
{
    if p.len() == 0 {
        -1
    } else if is_sep(p.last()) {
        p.len() - 1
    } else {
        last_slash(p.drop_last())
    }
}

/// The text of the last component of `p`.
pub open spec fn last_segment(p: Seq<char>) -> Seq<char> {
    let q = rstrip(p);
    q.skip(last_slash(q) + 1)
}

/// The final component of `p` when it is a name, as `Path::file_name` gives it.
pub open spec fn file_name(p: Seq<char>) -> Option<Seq<char>> {
    let seg = last_segment(p);
    if seg.len() == 0 || seg == seq!['.'] || seg == seq!['.', '.'] {
        None
    } else {
        Some(seg)
    }
}

/// The position of the last `.` in `name`, or -1.
pub open spec fn last_dot(name: Seq<char>) -> int
    decreases name.len(),
{
    if name.len() == 0 {
        -1
    } else if name.last() == '.' {
        name.len() - 1
    } else {
        last_dot(name.drop_last())
    }
}

/// The name without its extension, as `Path::file_stem` gives it.
pub open spec fn file_stem(p: Seq<char>) -> Option<Seq<char>> {
    match file_name(p) {
        None => None,
        Some(name) => {
            let d = last_dot(name);
            if d <= 0 {
                Some(name)
            } else {
                Some(name.take(d))
            }
        },
    }
}

/// The extension of the name, as `Path::extension` gives it.
pub open spec fn extension(p: Seq<char>) -> Option<Seq<char>> {
    match file_name(p) {
        None => None,
        Some(name) => {
            let d = last_dot(name);
            if d <= 0 {
                None
            } else {
                Some(name.skip(d + 1))
            }
        },
    }
}

/// `base` with `rel` pushed onto it, as `Path::join` gives it.
pub open spec fn join(base: Seq<char>, rel: Seq<char>) -> Seq<char> {
    if rel.len() > 0 && is_sep(rel[0]) {
        rel
    } else if base.len() == 0 || is_sep(base.last()) {
        base + rel
    } else {
        base + seq!['/'] + rel
    }
}

/// The path above `p`, as `Path::parent` gives it.
pub open spec fn parent(p: Seq<char>) -> Option<Seq<char>> {
    let q = rstrip(p);
    let k = last_slash(q);
    if q.len() == 0 || q.skip(k + 1).len() == 0 {
        None
    } else if k < 0 {
        Some(Seq::empty())
    } else if k == 0 {
        Some(q.take(1))
    } else {
        Some(rstrip(q.take(k)))
    }
}

/// Whether `c` separates the components of a path.
fn sep(c: char) -> (b: bool)
    ensures
        b == is_sep(c),
{
    c == '/' || c == '\\'
}

/// How long `p` is once trailing separators and `.` components are removed.
fn rstrip_len(p: &[char]) -> (n: usize)
    ensures
        n <= p.len(),
        rstrip(p@) == p@.take(n as int),
{
    let mut n = p.len();
    assert(p@.take(n as int) =~= p@);
    while n > 1 && (sep(p[n - 1]) || (p[n - 1] == '.' && sep(p[n - 2])))
        invariant
            n <= p.len(),
            rstrip(p@) == rstrip(p@.take(n as int)),
        decreases n,
    {
        assert(p@.take(n as int).drop_last() =~= p@.take(n - 1));
        n -= 1;
    }
    n
}

/// Where the last separator of `p[..n]` stands, or `None`.
fn last_slash_in(p: &[char], n: usize) -> (r: Option<usize>)
    requires
        n <= p.len(),
    ensures
        match r {
            Some(k) => k < n && last_slash(p@.take(n as int)) == k,
            None => last_slash(p@.take(n as int)) == -1,
        },
{
    let mut m = n;
    while m > 0
        invariant
            m <= n <= p.len(),
            last_slash(p@.take(n as int)) == last_slash(p@.take(m as int)),
        decreases m,
    {
        if sep(p[m - 1]) {
            return Some(m - 1);
        }
        assert(p@.take(m as int).drop_last() =~= p@.take(m - 1));
        m -= 1;
    }
    None
}

/// The start and end of the last component of `p`.
fn segment_bounds(p: &[char]) -> (r: (usize, usize))
    ensures
        r.0 <= r.1 <= p.len(),
        p@.subrange(r.0 as int, r.1 as int) == last_segment(p@),
{
    let n = rstrip_len(p);
    let start = match last_slash_in(p, n) {
        Some(k) => k + 1,
        None => 0,
    };
    proof {
        let q = p@.take(n as int);
        assert(q.skip(start as int) =~= p@.subrange(start as int, n as int));
    }
    (start, n)
}

/// The final component of `p` when it is a name.
pub fn file_name_of(p: &[char]) -> (r: Option<Vec<char>>)
    ensures
        match r {
            Some(v) => file_name(p@) == Some(v@),
            None => file_name(p@) is None,
        },
{
    let (a, b) = segment_bounds(p);
    let seg = slice_vec(p, a, b);
    let dots = seg.len() == 1 && seg[0] == '.' || seg.len() == 2 && seg[0] == '.' && seg[1] == '.';
    proof {
        if seg@ == seq!['.'] || seg@ == seq!['.', '.'] {
            assert(seg@.len() == 1 ==> seg@[0] == '.');
        }
        if dots {
            if seg.len() == 1 {
                assert(seg@ =~= seq!['.']);
            } else {
                assert(seg@ =~= seq!['.', '.']);
            }
        }
    }
    if seg.len() == 0 || dots {
        None
    } else {
        Some(seg)
    }
}

/// Where the last `.` of `name` stands, as `last_dot` says.
fn last_dot_of(name: &[char]) -> (d: Option<usize>)
    ensures
        match d {
            Some(k) => k < name.len() && last_dot(name@) == k,
            None => last_dot(name@) == -1,
        },
{
    let mut m = name.len();
    assert(name@.take(m as int) =~= name@);
    while m > 0
        invariant
            m <= name.len(),
            last_dot(name@) == last_dot(name@.take(m as int)),
        decreases m,
    {
        if name[m - 1] == '.' {
            return Some(m - 1);
        }
        assert(name@.take(m as int).drop_last() =~= name@.take(m - 1));
        m -= 1;
    }
    None
}

/// The name of `p` without its extension.
pub fn file_stem_of(p: &[char]) -> (r: Option<Vec<char>>)
    ensures
        match r {
            Some(v) => file_stem(p@) == Some(v@),
            None => file_stem(p@) is None,
        },
{
    match file_name_of(p) {
        None => None,
        Some(name) => match last_dot_of(&name) {
            Some(d) if d > 0 => {
                let stem = slice_vec(&name, 0, d);
                assert(stem@ =~= name@.take(d as int));
                Some(stem)
            },
            _ => Some(name),
        },
    }
}

/// The extension of `p`'s name.
pub fn extension_of(p: &[char]) -> (r: Option<Vec<char>>)
    ensures
        match r {
            Some(v) => extension(p@) == Some(v@),
            None => extension(p@) is None,
        },
{
    match file_name_of(p) {
        None => None,
        Some(name) => match last_dot_of(&name) {
            Some(d) if d > 0 => {
                let ext = slice_vec(&name, d + 1, name.len());
                assert(ext@ =~= name@.skip(d + 1));
                Some(ext)
            },
            _ => None,
        },
    }
}

/// `base` joined with `rel`.
pub fn join_chars(base: &[char], rel: &[char]) -> (r: Vec<char>)
    ensures
        r@ == join(base@, rel@),
{
    if rel.len() > 0 && sep(rel[0]) {
        return slice_vec(rel, 0, rel.len());
    }
    let mut r = slice_vec(base, 0, base.len());
    if !(base.len() == 0 || sep(base[base.len() - 1])) {
        r.push('/');
    }
    crate::text::append(&mut r, rel);
    proof {
        assert(base@.subrange(0, base@.len() as int) =~= base@);
        assert(rel@.subrange(0, rel@.len() as int) =~= rel@);
    }
    r
}

/// `base` joined with `rel`, as strings.
pub fn join_str(base: &str, rel: &str) -> (r: String)
    ensures
        r@ == join(base@, rel@),
{
    let b = chars_of(base);
    let c = chars_of(rel);
    string_of(&join_chars(&b, &c))
}

/// The path above `p`.
pub fn parent_of(p: &[char]) -> (r: Option<Vec<char>>)
    ensures
        match r {
            Some(v) => parent(p@) == Some(v@),
            None => parent(p@) is None,
        },
{
    let n = rstrip_len(p);
    let q = slice_vec(p, 0, n);
    assert(q@ =~= p@.take(n as int));
    assert(q@.take(n as int) =~= q@);
    let k = last_slash_in(&q, n);
    match k {
        None => {
            if n == 0 {
                None
            } else {
                assert(q@.skip(0) =~= q@);
                Some(Vec::new())
            }
        },
        Some(k) => {
            if k + 1 == n {
                assert(q@.skip(k + 1).len() == 0);
                None
            } else if k == 0 {
                let v = slice_vec(&q, 0, 1);
                assert(v@ =~= q@.take(1));
                Some(v)
            } else {
                let head = slice_vec(&q, 0, k);
                assert(head@ =~= q@.take(k as int));
                let m = rstrip_len(&head);
                let out = slice_vec(&head, 0, m);
                assert(out@ =~= head@.take(m as int));
                Some(out)
            }
        },
    }
}

} // verus!

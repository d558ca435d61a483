//! Finding the game: launchers, install folders and the library folders Steam lists.
use vstd::prelude::*;

use crate::config::{first_known, home_dir};
use crate::json::{json_text, json_text_field};
use crate::paths::{join, join_str, parent, parent_of};
use crate::text::{
    chars_of, contains, contains_in, eq_ignore_ascii_case, lex_less, lex_lt, lemma_lex_total, lemma_lex_transitive,
    lowercase, same_chars, split, split_on, string_of, to_lowercase, trim, trimmed, views,
};

verus! {

/// The store the game was bought from.
#[derive(Debug, Clone, Copy, PartialEq, Eq, Structural)]
pub enum Launcher {
    Steam,
    Epic,
}

pub open spec fn launcher_label(l: Launcher) -> Seq<char> {
    match l {
        Launcher::Steam => "Steam"@,
        Launcher::Epic => "Epic"@,
    }
}

impl Launcher {
    /// The store's name.
    pub fn label(self) -> (r: &'static str)
        ensures
            r@ == launcher_label(self),
    {
        proof {
            reveal_strlit("Steam");
            reveal_strlit("Epic");
        }
        match self {
            Launcher::Steam => "Steam",
            Launcher::Epic => "Epic",
        }
    }
}

/// A copy of the game on disk.
#[derive(Debug, Clone, PartialEq, Eq)]
pub struct Install {
    pub launcher: Launcher,
    pub root: String,
}

/// `value` with each doubled backslash made single, reading from the left.
pub open spec fn unescape_spec(value: Seq<char>) -> Seq<char>
    decreases value.len(),
{
    if value.len() == 0 {
        Seq::empty()
    } else if value.len() >= 2 && value[0] == '\\' && value[1] == '\\' {
        seq!['\\'] + unescape_spec(value.skip(2))
    } else {
        seq![value[0]] + unescape_spec(value.skip(1))
    }
}

/// A quoted value of a Steam `.vdf` file as plain text: `\\` stands for `\`.
fn unescape_vdf(value: &[char]) -> (r: Vec<char>)
    ensures
        r@ == unescape_spec(value@),
{
    let mut out: Vec<char> = Vec::new();
    let mut i: usize = 0;
    assert(value@.skip(0) =~= value@);
    while i < value.len()
        invariant
            i <= value.len(),
            unescape_spec(value@) == out@ + unescape_spec(value@.skip(i as int)),
        decreases value.len() - i,
    {
        let ghost rest = value@.skip(i as int);
        if i + 1 < value.len() && value[i] == '\\' && value[i + 1] == '\\' {
            assert(rest.skip(2) =~= value@.skip(i + 2));
            out.push('\\');
            assert(unescape_spec(value@) == out@ + unescape_spec(value@.skip(i + 2)));
            i += 2;
        } else {
            assert(rest.skip(1) =~= value@.skip(i + 1));
            out.push(value[i]);
            assert(unescape_spec(value@) == out@ + unescape_spec(value@.skip(i + 1)));
            i += 1;
        }
    }
    assert(value@.skip(i as int) =~= Seq::<char>::empty());
    assert(out@ + Seq::<char>::empty() =~= out@);
    out
}

/// The pieces that hold more than blanks, in order.
pub open spec fn nonblank(parts: Seq<Seq<char>>) -> Seq<Seq<char>>
    decreases parts.len(),
{
    if parts.len() == 0 {
        Seq::empty()
    } else if trim(parts.last()).len() > 0 {
        nonblank(parts.drop_last()).push(parts.last())
    } else {
        nonblank(parts.drop_last())
    }
}

/// The library folder a line of `libraryfolders.vdf` names, if it is a `"path"` line.
pub open spec fn vdf_path(line: Seq<char>) -> Option<Seq<char>> {
    let parts = nonblank(split(trim(line), '"'));
    if parts.len() >= 2 && eq_ignore_ascii_case(parts[0], "path"@) {
        Some(unescape_spec(parts[1]))
    } else {
        None
    }
}

/// The folders named by the `"path"` lines among `lines`, in order.
pub open spec fn vdf_paths(lines: Seq<Seq<char>>) -> Seq<Seq<char>>
    decreases lines.len(),
{
    if lines.len() == 0 {
        Seq::empty()
    } else {
        let rest = vdf_paths(lines.drop_last());
        match vdf_path(lines.last()) {
            Some(p) => rest.push(p),
            None => rest,
        }
    }
}

pub open spec fn string_views(v: Seq<String>) -> Seq<Seq<char>> {
    v.map_values(|s: String| s@)
}

/// Whether `s` is `path` once ASCII letters are lowered.
fn is_path_key(s: &[char]) -> (b: bool)
    ensures
        b == eq_ignore_ascii_case(s@, "path"@),
{
    proof {
        reveal_strlit("path");
    }
    let lowered = crate::catalog::lowered(s);
    let key = chars_of("path");
    let b = same_chars(&lowered, &key);
    proof {
        let l = "path"@.map_values(|c: char| crate::text::ascii_lower(c));
        assert(l =~= "path"@);
    }
    b
}

/// The library folder a line of `libraryfolders.vdf` names, if any.
fn path_of_line(line: &[char]) -> (r: Option<Vec<char>>)
    ensures
        match r {
            Some(p) => vdf_path(line@) == Some(p@),
            None => vdf_path(line@) is None,
        },
{
    let pieces = split_on(&trimmed(line), '"');
    let mut kept: Vec<Vec<char>> = Vec::new();
    let mut i: usize = 0;
    while i < pieces.len()
        invariant
            i <= pieces.len(),
            views(kept@) == nonblank(views(pieces@).take(i as int)),
        decreases pieces.len() - i,
    {
        let ghost before = views(pieces@).take(i as int);
        assert(views(pieces@).take(i + 1).drop_last() =~= before);
        assert(views(pieces@).take(i + 1).last() == pieces@[i as int]@);
        if trimmed(&pieces[i]).len() > 0 {
            let p = crate::text::slice_vec(&pieces[i], 0, pieces[i].len());
            assert(p@ =~= pieces@[i as int]@);
            kept.push(p);
            assert(views(kept@) =~= nonblank(before).push(pieces@[i as int]@));
        }
        i += 1;
    }
    assert(views(pieces@).take(pieces.len() as int) =~= views(pieces@));
    if kept.len() >= 2 && is_path_key(&kept[0]) {
        Some(unescape_vdf(&kept[1]))
    } else {
        None
    }
}

/// The library folders a Steam `libraryfolders.vdf` lists, in the order it lists them.
pub fn parse_library_folders(vdf: &str) -> (r: Vec<String>)
    ensures
        string_views(r@) == vdf_paths(split(vdf@, '\n')),
{
    let lines = split_on(&chars_of(vdf), '\n');
    let mut out: Vec<String> = Vec::new();
    let mut i: usize = 0;
    while i < lines.len()
        invariant
            i <= lines.len(),
            views(lines@) == split(vdf@, '\n'),
            string_views(out@) == vdf_paths(views(lines@).take(i as int)),
        decreases lines.len() - i,
    {
        let ghost before = views(lines@).take(i as int);
        assert(views(lines@).take(i + 1).drop_last() =~= before);
        assert(views(lines@).take(i + 1).last() == lines@[i as int]@);
        match path_of_line(&lines[i]) {
            Some(p) => {
                out.push(string_of(&p));
                assert(string_views(out@) =~= vdf_paths(before).push(p@));
            },
            None => {},
        }
        i += 1;
    }
    assert(views(lines@).take(lines.len() as int) =~= views(lines@));
    out
}

/// How Windows knows a folder: slashes turned to backslashes, then lowercased.
pub open spec fn windows_key_spec(path: Seq<char>) -> Seq<char> {
    lowercase(path.map_values(|c: char| if c == '/' { '\\' } else { c }))
}

/// The identity of a folder on Windows, where case and slash direction do not count.
pub fn windows_path_key(path: &str) -> (k: String)
    ensures
        k@ == windows_key_spec(path@),
{
    let s = chars_of(path);
    let mut out: Vec<char> = Vec::new();
    let mut i: usize = 0;
    while i < s.len()
        invariant
            i <= s.len(),
            s@ == path@,
            out@ == s@.take(i as int).map_values(|c: char| if c == '/' { '\\' } else { c }),
        decreases s.len() - i,
    {
        let c = if s[i] == '/' { '\\' } else { s[i] };
        out.push(c);
        assert(out@ =~= s@.take(i + 1).map_values(|c: char| if c == '/' { '\\' } else { c }));
        i += 1;
    }
    assert(s@.take(s.len() as int) =~= s@);
    to_lowercase(string_of(&out).as_str())
}

/// How a folder is told apart from others: on Windows by its Windows key, where
/// case and slash direction do not count; elsewhere as written.
pub open spec fn path_key_spec(path: Seq<char>, windows: bool) -> Seq<char> {
    if windows {
        windows_key_spec(path)
    } else {
        path
    }
}

/// How a folder is told apart from others, on Windows (`windows`) or elsewhere.
pub fn path_key(path: &str, windows: bool) -> (k: String)
    ensures
        k@ == path_key_spec(path@, windows),
{
    if windows {
        windows_path_key(path)
    } else {
        string_of(&chars_of(path))
    }
}

/// The key of entry `r[i]`.
pub open spec fn key_at(keys: Seq<Seq<char>>, r: Seq<usize>, i: int) -> Seq<char> {
    keys[r[i] as int]
}

/// `r` picks, in increasing key order, the first entry of each key among `keys`.
pub open spec fn firsts_in_order(keys: Seq<Seq<char>>, r: Seq<usize>, n: int) -> bool {
    &&& forall|i: int| 0 <= i < r.len() ==> #[trigger] r[i] < n
    &&& forall|i: int, j: int| 0 <= i < j < r.len() ==> lex_lt(#[trigger] key_at(keys, r, i), #[trigger] key_at(keys, r, j))
    &&& forall|i: int, k: int| 0 <= i < r.len() && 0 <= k < r[i] ==> #[trigger] keys[k] != #[trigger] key_at(keys, r, i)
    &&& forall|k: int| 0 <= k < n ==> #[trigger] covered(keys, r, keys[k])
}

/// Some pick of `r` has the key `x`.
pub open spec fn covered(keys: Seq<Seq<char>>, r: Seq<usize>, x: Seq<char>) -> bool {
    exists|i: int| 0 <= i < r.len() && #[trigger] key_at(keys, r, i) == x
}

#[verifier::rlimit(40)]
proof fn lemma_insert_first(keys: Seq<Seq<char>>, r: Seq<usize>, n: usize, p: int)
    requires
        0 <= n < keys.len(),
        0 <= p <= r.len(),
        firsts_in_order(keys, r, n as int),
        forall|q: int| 0 <= q < p ==> lex_lt(#[trigger] key_at(keys, r, q), keys[n as int]),
        p < r.len() ==> lex_lt(keys[n as int], key_at(keys, r, p)),
    ensures
        firsts_in_order(keys, r.insert(p, n), n + 1),
{
    let s = r.insert(p, n);
    r.insert_ensures(p, n);
    assert forall|i: int| p < i < s.len() implies #[trigger] s[i] == r[i - 1] by {
        assert(s[(i - 1) + 1] == r[i - 1]);
    }
    assert forall|q: int| p < q < r.len() implies lex_lt(keys[n as int], #[trigger] key_at(keys, r, q)) by {
        lemma_lex_transitive(keys[n as int], key_at(keys, r, p), key_at(keys, r, q));
    }
    assert forall|q: int| 0 <= q < r.len() implies keys[n as int] != #[trigger] key_at(keys, r, q) by {
        lemma_lex_total(keys[n as int], key_at(keys, r, q));
        if q < p {
        } else if q == p {
        } else {
        }
    }
    assert forall|i: int| 0 <= i < s.len() implies #[trigger] s[i] < n + 1 by {
        if i < p {
            assert(s[i] == r[i]);
        } else if i > p {
            assert(s[i] == r[i - 1]);
        }
    }
    assert forall|i: int, j: int| 0 <= i < j < s.len() implies lex_lt(#[trigger] key_at(keys, s, i), #[trigger] key_at(keys, s, j)) by {
        if j < p {
            assert(key_at(keys, s, i) == key_at(keys, r, i));
            assert(key_at(keys, s, j) == key_at(keys, r, j));
        } else if j == p {
            assert(key_at(keys, s, i) == key_at(keys, r, i));
        } else if i < p {
            assert(key_at(keys, s, i) == key_at(keys, r, i));
            assert(key_at(keys, s, j) == key_at(keys, r, j - 1));
            assert(lex_lt(key_at(keys, r, i), keys[n as int]));
            assert(lex_lt(keys[n as int], key_at(keys, r, j - 1)));
            lemma_lex_transitive(key_at(keys, r, i), keys[n as int], key_at(keys, r, j - 1));
        } else if i == p {
            assert(key_at(keys, s, j) == key_at(keys, r, j - 1));
        } else {
            assert(key_at(keys, s, i) == key_at(keys, r, i - 1));
            assert(key_at(keys, s, j) == key_at(keys, r, j - 1));
        }
    }
    assert forall|i: int, k: int| 0 <= i < s.len() && 0 <= k < s[i] implies #[trigger] keys[k] != #[trigger] key_at(keys, s, i) by {
        if i < p {
            assert(key_at(keys, s, i) == key_at(keys, r, i));
        } else if i == p {
            assert(covered(keys, r, keys[k]));
            let w = choose|w: int| 0 <= w < r.len() && #[trigger] key_at(keys, r, w) == keys[k];
            assert(keys[n as int] != key_at(keys, r, w));
        } else {
            assert(key_at(keys, s, i) == key_at(keys, r, i - 1));
            assert(s[i] == r[i - 1]);
        }
    }
    assert forall|k: int| 0 <= k < n + 1 implies #[trigger] covered(keys, s, keys[k]) by {
        if k == n {
            assert(key_at(keys, s, p) == keys[k]);
        } else {
            assert(covered(keys, r, keys[k]));
            let w = choose|w: int| 0 <= w < r.len() && #[trigger] key_at(keys, r, w) == keys[k];
            if w < p {
                assert(key_at(keys, s, w) == keys[k]);
            } else {
                assert(key_at(keys, s, w + 1) == keys[k]);
            }
        }
    }
}

/// The first entry of each key among `keys`, by position, in increasing key order:
/// what a stable sort by key followed by dropping repeated keys keeps.
pub fn firsts_by_key(keys: &Vec<Vec<char>>) -> (r: Vec<usize>)
    ensures
        firsts_in_order(views(keys@), r@, keys@.len() as int),
{
    let ghost ks = views(keys@);
    let mut r: Vec<usize> = Vec::new();
    let mut n: usize = 0;
    while n < keys.len()
        invariant
            n <= keys.len(),
            ks == views(keys@),
            ks.len() == keys@.len(),
            firsts_in_order(ks, r@, n as int),
        decreases keys.len() - n,
    {
        let mut p: usize = 0;
        while p < r.len() && lex_less(&keys[r[p]], &keys[n])
            invariant
                n < keys.len(),
                p <= r.len(),
                ks == views(keys@),
                firsts_in_order(ks, r@, n as int),
                forall|q: int| 0 <= q < p ==> lex_lt(#[trigger] key_at(ks, r@, q), ks[n as int]),
            decreases r.len() - p,
        {
            assert(key_at(ks, r@, p as int) == keys@[r@[p as int] as int]@);
            p += 1;
        }
        if p < r.len() && same_chars(&keys[r[p]], &keys[n]) {
            assert(key_at(ks, r@, p as int) == ks[n as int]);
            assert(covered(ks, r@, ks[n as int]));
        } else {
            proof {
                if p < r.len() {
                    assert(key_at(ks, r@, p as int) == keys@[r@[p as int] as int]@);
                    lemma_lex_total(ks[n as int], key_at(ks, r@, p as int));
                }
                lemma_insert_first(ks, r@, n, p as int);
            }
            r.insert(p, n);
        }
        n += 1;
    }
    r
}

pub open spec fn root_keys(found: Seq<Install>, windows: bool) -> Seq<Seq<char>> {
    found.map_values(|i: Install| path_key_spec(i.root@, windows))
}

/// Install `k` is the first found in its folder.
pub open spec fn first_of_root(found: Seq<Install>, windows: bool, k: int) -> bool {
    0 <= k < found.len() && forall|m: int|
        0 <= m < k ==> path_key_spec(found[m].root@, windows) != path_key_spec(found[k].root@, windows)
}

/// `x` is an install found first in its folder.
pub open spec fn first_found(found: Seq<Install>, windows: bool, x: Install) -> bool {
    exists|k: int| first_of_root(found, windows, k) && found[k] == x
}

/// The installs found, one for each folder, in the order of their folders' keys
/// (see `path_key`): the first found stands for a folder found twice.
pub fn unique_installs(found: Vec<Install>, windows: bool) -> (r: Vec<Install>)
    ensures
        forall|i: int, j: int|
            0 <= i < j < r@.len() ==> lex_lt(
                path_key_spec((#[trigger] r@[i]).root@, windows),
                path_key_spec((#[trigger] r@[j]).root@, windows),
            ),
        forall|i: int| 0 <= i < r@.len() ==> first_found(found@, windows, #[trigger] r@[i]),
        forall|k: int|
            0 <= k < found@.len() ==> root_keys(r@, windows).contains(path_key_spec((#[trigger] found@[k]).root@, windows)),
{
    let mut keys: Vec<Vec<char>> = Vec::new();
    let mut i: usize = 0;
    while i < found.len()
        invariant
            i <= found.len(),
            keys@.len() == i,
            forall|j: int| 0 <= j < i ==> (#[trigger] keys@[j])@ == path_key_spec(found@[j].root@, windows),
        decreases found.len() - i,
    {
        keys.push(chars_of(path_key(found[i].root.as_str(), windows).as_str()));
        i += 1;
    }
    assert(views(keys@) =~= root_keys(found@, windows));
    let picks = firsts_by_key(&keys);
    let ghost ks = root_keys(found@, windows);
    let mut r: Vec<Install> = Vec::new();
    let mut j: usize = 0;
    while j < picks.len()
        invariant
            j <= picks.len(),
            ks == root_keys(found@, windows),
            firsts_in_order(ks, picks@, found@.len() as int),
            r@.len() == j,
            forall|k: int| 0 <= k < j ==> r@[k] == found@[#[trigger] picks@[k] as int],
        decreases picks.len() - j,
    {
        assert(picks@[j as int] < found@.len());
        let chosen = &found[picks[j]];
        r.push(Install { launcher: chosen.launcher, root: chosen.root.clone() });
        j += 1;
    }
    proof {
        assert forall|a: int, b: int| 0 <= a < b < r@.len() implies lex_lt(
            path_key_spec((#[trigger] r@[a]).root@, windows),
            path_key_spec((#[trigger] r@[b]).root@, windows),
        ) by {
            assert(key_at(ks, picks@, a) == path_key_spec(r@[a].root@, windows));
            assert(key_at(ks, picks@, b) == path_key_spec(r@[b].root@, windows));
        }
        assert forall|a: int| 0 <= a < r@.len() implies first_found(found@, windows, #[trigger] r@[a]) by {
            let k = picks@[a] as int;
            assert(key_at(ks, picks@, a) == path_key_spec(found@[k].root@, windows));
            assert forall|m: int| 0 <= m < k implies path_key_spec(found@[m].root@, windows) != path_key_spec(
                found@[k].root@,
                windows,
            ) by {
                assert(ks[m] == path_key_spec(found@[m].root@, windows));
            }
            assert(first_of_root(found@, windows, k) && found@[k] == r@[a]);
        }
        assert forall|k: int| 0 <= k < found@.len() implies root_keys(r@, windows).contains(
            path_key_spec((#[trigger] found@[k]).root@, windows),
        ) by {
            assert(ks[k] == path_key_spec(found@[k].root@, windows));
            assert(covered(ks, picks@, ks[k]));
            let a = choose|a: int| 0 <= a < picks@.len() && #[trigger] key_at(ks, picks@, a) == ks[k];
            assert(root_keys(r@, windows)[a] == path_key_spec(found@[k].root@, windows));
        }
    }
    r
}

/// The keys (see `path_key`) of the folders `paths`.
pub open spec fn path_keys(paths: Seq<String>, windows: bool) -> Seq<Seq<char>> {
    paths.map_values(|p: String| path_key_spec(p@, windows))
}

/// `x` is a folder given before any other of its key.
pub open spec fn first_given(paths: Seq<String>, windows: bool, x: String) -> bool {
    exists|k: int|
        0 <= k < paths.len() && paths[k] == x && forall|m: int|
            0 <= m < k ==> path_key_spec(paths[m]@, windows) != path_key_spec(paths[k]@, windows)
}

/// The folders given, one for each key (see `path_key`), in increasing key
/// order: what sorting them by key and dropping repeated keys leaves, the first
/// given standing for a key given twice.
pub fn unique_paths(paths: Vec<String>, windows: bool) -> (r: Vec<String>)
    ensures
        forall|i: int, j: int|
            0 <= i < j < r@.len() ==> lex_lt(path_key_spec((#[trigger] r@[i])@, windows), path_key_spec((#[trigger] r@[j])@, windows)),
        forall|i: int| 0 <= i < r@.len() ==> first_given(paths@, windows, #[trigger] r@[i]),
        forall|k: int| 0 <= k < paths@.len() ==> path_keys(r@, windows).contains(path_key_spec((#[trigger] paths@[k])@, windows)),
{
    let mut keys: Vec<Vec<char>> = Vec::new();
    let mut i: usize = 0;
    while i < paths.len()
        invariant
            i <= paths.len(),
            keys@.len() == i,
            forall|j: int| 0 <= j < i ==> (#[trigger] keys@[j])@ == path_key_spec(paths@[j]@, windows),
        decreases paths.len() - i,
    {
        keys.push(chars_of(path_key(paths[i].as_str(), windows).as_str()));
        i += 1;
    }
    assert(views(keys@) =~= path_keys(paths@, windows));
    let picks = firsts_by_key(&keys);
    let ghost ks = path_keys(paths@, windows);
    let mut r: Vec<String> = Vec::new();
    let mut j: usize = 0;
    while j < picks.len()
        invariant
            j <= picks.len(),
            ks == path_keys(paths@, windows),
            firsts_in_order(ks, picks@, paths@.len() as int),
            r@.len() == j,
            forall|k: int| 0 <= k < j ==> r@[k] == paths@[#[trigger] picks@[k] as int],
        decreases picks.len() - j,
    {
        assert(picks@[j as int] < paths@.len());
        r.push(paths[picks[j]].clone());
        j += 1;
    }
    proof {
        assert forall|a: int, b: int| 0 <= a < b < r@.len() implies lex_lt(
            path_key_spec((#[trigger] r@[a])@, windows),
            path_key_spec((#[trigger] r@[b])@, windows),
        ) by {
            assert(key_at(ks, picks@, a) == path_key_spec(r@[a]@, windows));
            assert(key_at(ks, picks@, b) == path_key_spec(r@[b]@, windows));
        }
        assert forall|a: int| 0 <= a < r@.len() implies first_given(paths@, windows, #[trigger] r@[a]) by {
            let k = picks@[a] as int;
            assert(paths@[k] == r@[a]);
            assert(key_at(ks, picks@, a) == ks[k]);
            assert forall|m: int| 0 <= m < k implies path_key_spec(paths@[m]@, windows) != path_key_spec(paths@[k]@, windows) by {
                assert(ks[m] == path_key_spec(paths@[m]@, windows));
                assert(ks[k] == path_key_spec(paths@[k]@, windows));
            }
        }
        assert forall|k: int| 0 <= k < paths@.len() implies path_keys(r@, windows).contains(
            path_key_spec((#[trigger] paths@[k])@, windows),
        ) by {
            assert(ks[k] == path_key_spec(paths@[k]@, windows));
            assert(covered(ks, picks@, ks[k]));
            let a = choose|a: int| 0 <= a < picks@.len() && #[trigger] key_at(ks, picks@, a) == ks[k];
            assert(path_keys(r@, windows)[a] == path_key_spec(paths@[k]@, windows));
        }
    }
    r
}

/// Where the game would be inside a Steam library.
pub open spec fn steam_game_dir_spec(library: Seq<char>) -> Seq<char> {
    join(join(join(library, "steamapps"@), "common"@), "rocketleague"@)
}

/// Where the game would be inside a Steam library.
pub fn steam_game_dir(library: &str) -> (p: String)
    ensures
        p@ == steam_game_dir_spec(library@),
{
    let a = join_str(library, "steamapps");
    let b = join_str(a.as_str(), "common");
    join_str(b.as_str(), "rocketleague")
}

/// Where a Steam folder lists its libraries.
pub fn library_folders_file(steam: &str) -> (p: String)
    ensures
        p@ == join(join(steam@, "steamapps"@), "libraryfolders.vdf"@),
{
    let a = join_str(steam, "steamapps");
    join_str(a.as_str(), "libraryfolders.vdf")
}

/// The game folders of the libraries whose flag is set, in order.
pub open spec fn kept_game_dirs(libraries: Seq<Seq<char>>, holds: Seq<bool>) -> Seq<Seq<char>>
    decreases libraries.len(),
{
    if libraries.len() == 0 || holds.len() == 0 {
        Seq::empty()
    } else {
        let rest = kept_game_dirs(libraries.drop_last(), holds.drop_last());
        if holds.last() {
            rest.push(steam_game_dir_spec(libraries.last()))
        } else {
            rest
        }
    }
}

pub open spec fn install_roots(r: Seq<Install>) -> Seq<Seq<char>> {
    r.map_values(|i: Install| i.root@)
}

/// The Steam installs among the libraries: `holds_game[i]` tells whether the game
/// folder of library `i` really holds the game.
pub fn steam_installs_from_libraries(libraries: &[String], holds_game: &[bool]) -> (r: Vec<Install>)
    requires
        libraries@.len() == holds_game@.len(),
    ensures
        install_roots(r@) == kept_game_dirs(string_views(libraries@), holds_game@),
        forall|i: int| 0 <= i < r@.len() ==> (#[trigger] r@[i]).launcher == Launcher::Steam,
{
    let mut r: Vec<Install> = Vec::new();
    let mut i: usize = 0;
    while i < libraries.len()
        invariant
            i <= libraries@.len(),
            libraries@.len() == holds_game@.len(),
            install_roots(r@) == kept_game_dirs(string_views(libraries@).take(i as int), holds_game@.take(i as int)),
            forall|a: int| 0 <= a < r@.len() ==> (#[trigger] r@[a]).launcher == Launcher::Steam,
        decreases libraries@.len() - i,
    {
        let ghost before = install_roots(r@);
        assert(string_views(libraries@).take(i + 1).drop_last() =~= string_views(libraries@).take(i as int));
        assert(holds_game@.take(i + 1).drop_last() =~= holds_game@.take(i as int));
        if holds_game[i] {
            let root = steam_game_dir(libraries[i].as_str());
            r.push(Install { launcher: Launcher::Steam, root });
            assert(install_roots(r@) =~= before.push(steam_game_dir_spec(libraries@[i as int]@)));
        }
        i += 1;
    }
    assert(string_views(libraries@).take(i as int) =~= string_views(libraries@));
    assert(holds_game@.take(i as int) =~= holds_game@);
    r
}

/// Where Steam may keep itself under the home folder, in the order they are tried.
pub fn steam_roots(home: &str) -> (r: Vec<String>)
    ensures
        string_views(r@) == seq![
            join(join(home@, ".steam"@), "steam"@),
            join(join(join(home@, ".local"@), "share"@), "Steam"@),
            join(join(join(home@, "Library"@), "Application Support"@), "Steam"@),
        ],
{
    let a = join_str(home, ".steam");
    let first = join_str(a.as_str(), "steam");
    let b = join_str(home, ".local");
    let c = join_str(b.as_str(), "share");
    let second = join_str(c.as_str(), "Steam");
    let d = join_str(home, "Library");
    let e = join_str(d.as_str(), "Application Support");
    let third = join_str(e.as_str(), "Steam");
    let mut r: Vec<String> = Vec::new();
    r.push(first);
    r.push(second);
    r.push(third);
    assert(string_views(r@) =~= seq![
        join(join(home@, ".steam"@), "steam"@),
        join(join(join(home@, ".local"@), "share"@), "Steam"@),
        join(join(join(home@, "Library"@), "Application Support"@), "Steam"@),
    ]);
    r
}

/// The folders to try when a folder was picked as the game's: the folder itself,
/// then up to three folders above it, nearest first.
pub open spec fn upward_spec(picked: Seq<char>, steps: nat) -> Seq<Seq<char>>
    decreases steps,
{
    if steps == 0 {
        seq![picked]
    } else {
        match parent(picked) {
            Some(up) => seq![picked] + upward_spec(up, (steps - 1) as nat),
            None => seq![picked],
        }
    }
}

fn push_upward(cur: &[char], steps: usize, r: &mut Vec<String>)
    ensures
        string_views(final(r)@) == string_views(old(r)@) + upward_spec(cur@, steps as nat),
    decreases steps,
{
    let ghost before = string_views(r@);
    r.push(string_of(cur));
    assert(string_views(r@) =~= before + seq![cur@]);
    if steps == 0 {
        return;
    }
    match parent_of(cur) {
        Some(up) => {
            let ghost mid = string_views(r@);
            push_upward(&up, steps - 1, r);
            assert(string_views(r@) =~= before + upward_spec(cur@, steps as nat));
        },
        None => {},
    }
}

/// The folder picked and up to three folders above it, nearest first: where the
/// game may be when a folder inside it was picked.
pub fn upward_candidates(picked: &str) -> (r: Vec<String>)
    ensures
        string_views(r@) == upward_spec(picked@, 3),
{
    let mut r: Vec<String> = Vec::new();
    push_upward(&chars_of(picked), 3, &mut r);
    assert(string_views(r@) =~= Seq::<Seq<char>>::empty() + upward_spec(picked@, 3));
    r
}

/// `dirs::document_dir`, as a string. It depends on the machine, so nothing is
/// stated of it.
#[verifier::external_body]
fn document_dir() -> Option<String> {
    dirs::document_dir().map(|p| p.to_string_lossy().into_owned())
}

/// Where maps are kept inside `base`.
pub fn library_dir_in(base: &str) -> (p: String)
    ensures
        p@ == join(base@, "Rocket League Maps"@),
{
    join_str(base, "Rocket League Maps")
}

/// Where maps are kept unless the user picks another folder: `Rocket League Maps`
/// in the documents folder, else in the home folder, else in the working folder.
pub fn default_library_dir() -> (p: String)
    ensures
        exists|base: Seq<char>| p@ == join(base, "Rocket League Maps"@),
{
    let base = first_known(document_dir(), home_dir(), None);
    library_dir_in(base.as_str())
}

/// The Epic install a manifest describes, given its display name and install
/// location: only the game's own manifest counts.
pub open spec fn epic_install_spec(name: Option<Seq<char>>, location: Option<Seq<char>>) -> Option<Seq<char>> {
    match name {
        Some(n) => if contains(lowercase(n), "rocket league"@) {
            location
        } else {
            None
        },
        None => None,
    }
}

/// The install an Epic manifest names, from its display name and install location.
pub fn epic_install(name: Option<String>, location: Option<String>) -> (r: Option<Install>)
    ensures
        match r {
            Some(i) => i.launcher == Launcher::Epic && epic_install_spec(
                crate::matching::opt_view(name),
                crate::matching::opt_view(location),
            ) == Some(i.root@),
            None => epic_install_spec(crate::matching::opt_view(name), crate::matching::opt_view(location)) is None,
        },
{
    let n = match name {
        Some(n) => n,
        None => return None,
    };
    let lower = chars_of(to_lowercase(n.as_str()).as_str());
    let wanted = chars_of("rocket league");
    if !contains_in(&lower, &wanted) {
        return None;
    }
    match location {
        Some(l) => Some(Install { launcher: Launcher::Epic, root: l }),
        None => None,
    }
}

/// The install an Epic launcher manifest describes, if it is the game's.
pub fn parse_epic_manifest(json: &str) -> (r: Option<Install>)
    ensures
        match r {
            Some(i) => i.launcher == Launcher::Epic && epic_install_spec(
                json_text(json@, "DisplayName"@),
                json_text(json@, "InstallLocation"@),
            ) == Some(i.root@),
            None => epic_install_spec(json_text(json@, "DisplayName"@), json_text(json@, "InstallLocation"@)) is None,
        },
{
    let name = json_text_field(json, "DisplayName");
    let location = json_text_field(json, "InstallLocation");
    epic_install(name, location)
}

} // verus!

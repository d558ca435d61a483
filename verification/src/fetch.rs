//! Bringing maps into the library: from a download, an archive, loose files or a
//! folder. What is decided (names, which entries, which file is the level, the
//! size cap) is here; the reading and writing is done by the caller.
use vstd::prelude::*;

use crate::files::{is_map, is_map_spec, name_of, stem_of, worth_extracting, worth_extracting_spec};
use crate::hash::{hex_of, sha256_of, short};
use crate::library::{is_level, pick_level, strip_persistent_suffix, strip_suffix_spec, Info};
use crate::paths::{file_name, file_name_of, file_stem, join, join_str};
use crate::text::{
    chars_of, contains, contains_in, is_whitespace, join as join_spec, join_with, push_str, string_of, trim, trim_end, trim_start, views, white,
};

verus! {

/// How much an archive or a download may unpack to: four gibibytes.
pub const MAX_UNPACKED: u64 = 4294967296;

/// Where downloads wait inside the library before they are unpacked.
pub const STAGING: &'static str = ".staging";

/// Why a map could not be had.
#[derive(Debug, Clone)]
pub enum Error {
    NeedsBrowser,
    Network(String),
    Archive(String),
    Io(String),
}

impl Error {
    /// The sentence shown for this error.
    pub open spec fn message_spec(&self) -> Seq<char> {
        match self {
            Error::NeedsBrowser => "Google Drive wants confirmation, so open it in your browser"@,
            Error::Network(e) => e@,
            Error::Archive(e) => e@,
            Error::Io(e) => e@,
        }
    }

    /// The sentence shown for this error.
    pub fn message(&self) -> (s: String)
        ensures
            s@ == self.message_spec(),
    {
        match self {
            Error::NeedsBrowser => "Google Drive wants confirmation, so open it in your browser".to_string(),
            Error::Network(e) => e.clone(),
            Error::Archive(e) => e.clone(),
            Error::Io(e) => e.clone(),
        }
    }
}

/// A character Windows does not allow in a file name, or a control character.
pub open spec fn unsafe_char(c: char) -> bool {
    c == '/' || c == '\\' || c == ':' || c == '*' || c == '?' || c == '"' || c == '<' || c == '>' || c == '|' || (c as int) < 0x20
}

/// `s` without the dots at its start.
pub open spec fn strip_dots_start(s: Seq<char>) -> Seq<char>
    decreases s.len(),
{
    if s.len() > 0 && s[0] == '.' {
        strip_dots_start(s.drop_first())
    } else {
        s
    }
}

/// `s` without the dots at its end.
pub open spec fn strip_dots_end(s: Seq<char>) -> Seq<char>
    decreases s.len(),
{
    if s.len() > 0 && s.last() == '.' {
        strip_dots_end(s.drop_last())
    } else {
        s
    }
}

/// A name made safe for a folder or file on any system: each forbidden or
/// control character becomes `_`, then surrounding blanks and dots go; what is
/// left empty becomes `map`.
pub open spec fn sanitize_spec(name: Seq<char>) -> Seq<char> {
    let cleaned = name.map_values(|c: char| if unsafe_char(c) { '_' } else { c });
    let t = trim(strip_dots_end(strip_dots_start(trim(cleaned))));
    if t.len() == 0 {
        "map"@
    } else {
        t
    }
}

proof fn trim_start_at(s: Seq<char>) -> (k: int)
    ensures
        0 <= k <= s.len(),
        crate::text::trim_start(s) == s.skip(k),
    decreases s.len(),
{
    if s.len() > 0 && white(s[0]) {
        let k = trim_start_at(s.drop_first());
        assert(s.drop_first().skip(k) =~= s.skip(k + 1));
        k + 1
    } else {
        assert(s.skip(0) =~= s);
        0
    }
}

proof fn trim_end_at(s: Seq<char>) -> (k: int)
    ensures
        0 <= k <= s.len(),
        crate::text::trim_end(s) == s.take(k),
    decreases s.len(),
{
    if s.len() > 0 && white(s.last()) {
        let k = trim_end_at(s.drop_last());
        assert(s.drop_last().take(k) =~= s.take(k));
        k
    } else {
        assert(s.take(s.len() as int) =~= s);
        s.len() as int
    }
}

proof fn dots_start_at(s: Seq<char>) -> (k: int)
    ensures
        0 <= k <= s.len(),
        strip_dots_start(s) == s.skip(k),
    decreases s.len(),
{
    if s.len() > 0 && s[0] == '.' {
        let k = dots_start_at(s.drop_first());
        assert(s.drop_first().skip(k) =~= s.skip(k + 1));
        k + 1
    } else {
        assert(s.skip(0) =~= s);
        0
    }
}

proof fn dots_end_at(s: Seq<char>) -> (k: int)
    ensures
        0 <= k <= s.len(),
        strip_dots_end(s) == s.take(k),
    decreases s.len(),
{
    if s.len() > 0 && s.last() == '.' {
        let k = dots_end_at(s.drop_last());
        assert(s.drop_last().take(k) =~= s.take(k));
        k
    } else {
        assert(s.take(s.len() as int) =~= s);
        s.len() as int
    }
}

/// Whether no character of `s` is forbidden in a file name.
pub open spec fn all_safe(s: Seq<char>) -> bool {
    forall|i: int| 0 <= i < s.len() ==> !unsafe_char(#[trigger] s[i])
}

proof fn lemma_safe_parts(s: Seq<char>)
    requires
        all_safe(s),
    ensures
        all_safe(crate::text::trim(s)),
        all_safe(strip_dots_end(strip_dots_start(s))),
{
    let a = trim_start_at(s);
    let ts = s.skip(a);
    let b = trim_end_at(ts);
    assert forall|i: int| 0 <= i < crate::text::trim(s).len() implies !unsafe_char(#[trigger] crate::text::trim(s)[i]) by {
        assert(crate::text::trim(s)[i] == s[a + i]);
    }
    let c = dots_start_at(s);
    let ds = s.skip(c);
    let d = dots_end_at(ds);
    assert forall|i: int| 0 <= i < strip_dots_end(strip_dots_start(s)).len() implies !unsafe_char(#[trigger] strip_dots_end(strip_dots_start(s))[i]) by {
        assert(strip_dots_end(strip_dots_start(s))[i] == s[c + i]);
    }
}

/// A name made safe is never empty and holds no character that a file name on
/// Windows may not hold.
pub proof fn sanitized_names_are_safe(name: Seq<char>)
    ensures
        sanitize_spec(name).len() > 0,
        all_safe(sanitize_spec(name)),
{
    let cleaned = name.map_values(|c: char| if unsafe_char(c) { '_' } else { c });
    assert(all_safe(cleaned));
    lemma_safe_parts(cleaned);
    let t1 = crate::text::trim(cleaned);
    lemma_safe_parts(t1);
    let t2 = strip_dots_end(strip_dots_start(t1));
    lemma_safe_parts(t2);
    reveal_strlit("map");
}

/// A safe name keeps none of the characters Windows forbids in a file name,
/// `/ \\ : * ? " < > |`, nor a control character. It is `map`, or a stretch of
/// the given name in which each of those characters has become `_` and every
/// other character is kept as it was.
pub proof fn forbidden_characters_become_underscores(name: Seq<char>)
    ensures
        forall|i: int|
            0 <= i < sanitize_spec(name).len() ==> {
                let c = #[trigger] sanitize_spec(name)[i];
                &&& c != '/' && c != '\\' && c != ':' && c != '*' && c != '?'
                &&& c != '"' && c != '<' && c != '>' && c != '|'
                &&& (c as int) >= 0x20
            },
        sanitize_spec(name) == "map"@ || exists|k: int|
            #![trigger name.subrange(k, k + sanitize_spec(name).len())]
            0 <= k && k + sanitize_spec(name).len() <= name.len() && sanitize_spec(name) == name.subrange(
                k,
                k + sanitize_spec(name).len(),
            ).map_values(
                |c: char|
                    if c == '/' || c == '\\' || c == ':' || c == '*' || c == '?' || c == '"' || c == '<' || c == '>'
                        || c == '|' || (c as int) < 0x20 {
                        '_'
                    } else {
                        c
                    },
            ),
{
    sanitized_names_are_safe(name);
    let r = sanitize_spec(name);
    assert forall|i: int| 0 <= i < r.len() implies {
        let c = #[trigger] r[i];
        &&& c != '/' && c != '\\' && c != ':' && c != '*' && c != '?'
        &&& c != '"' && c != '<' && c != '>' && c != '|'
        &&& (c as int) >= 0x20
    } by {
        assert(!unsafe_char(r[i]));
    }
    let cleaned = name.map_values(|c: char| if unsafe_char(c) { '_' } else { c });
    let t1 = crate::text::trim(cleaned);
    let a = trim_start_at(cleaned);
    let ts = cleaned.skip(a);
    let b = trim_end_at(ts);
    assert(t1 == ts.take(b));
    let s1 = strip_dots_start(t1);
    let c = dots_start_at(t1);
    let d = dots_end_at(s1);
    let t2 = strip_dots_end(s1);
    assert(t2 == s1.take(d));
    let t3 = crate::text::trim(t2);
    let e = trim_start_at(t2);
    let f = trim_end_at(t2.skip(e));
    assert(t3 == t2.skip(e).take(f));
    if t3.len() > 0 {
        assert(r == t3);
        let k = a + c + e;
        assert(k + r.len() <= name.len());
        let w = name.subrange(k, k + r.len()).map_values(
            |ch: char|
                if ch == '/' || ch == '\\' || ch == ':' || ch == '*' || ch == '?' || ch == '"' || ch == '<' || ch == '>'
                    || ch == '|' || (ch as int) < 0x20 {
                    '_'
                } else {
                    ch
                },
        );
        assert forall|i: int| 0 <= i < r.len() implies r[i] == w[i] by {
            assert(t3[i] == t2[e + i]);
            assert(t2[e + i] == s1[e + i]);
            assert(s1[e + i] == t1[c + e + i]);
            assert(t1[c + e + i] == cleaned[a + c + e + i]);
            assert(cleaned[k + i] == (if unsafe_char(name[k + i]) { '_' } else { name[k + i] }));
            assert(name.subrange(k, k + r.len())[i] == name[k + i]);
        }
        assert(r =~= w);
    } else {
        reveal_strlit("map");
    }
}

fn strip_dots(s: &[char]) -> (r: Vec<char>)
    ensures
        r@ == strip_dots_end(strip_dots_start(s@)),
{
    let mut i: usize = 0;
    assert(s@.skip(0) =~= s@);
    while i < s.len() && s[i] == '.'
        invariant
            i <= s.len(),
            strip_dots_start(s@) == strip_dots_start(s@.skip(i as int)),
        decreases s.len() - i,
    {
        assert(s@.skip(i as int).drop_first() =~= s@.skip(i + 1));
        i += 1;
    }
    let mut j: usize = s.len();
    assert(s@.subrange(i as int, j as int) =~= s@.skip(i as int));
    while j > i && s[j - 1] == '.'
        invariant
            i <= j <= s.len(),
            strip_dots_start(s@) == s@.skip(i as int),
            strip_dots_end(s@.subrange(i as int, j as int)) == strip_dots_end(s@.skip(i as int)),
        decreases j,
    {
        assert(s@.subrange(i as int, j as int).drop_last() =~= s@.subrange(i as int, j - 1));
        j -= 1;
    }
    crate::text::slice_vec(s, i, j)
}

/// A name made safe for a folder or a file.
pub fn sanitize(name: &str) -> (r: String)
    ensures
        r@ == sanitize_spec(name@),
{
    let s = chars_of(name);
    let mut cleaned: Vec<char> = Vec::new();
    let mut i: usize = 0;
    while i < s.len()
        invariant
            i <= s.len(),
            s@ == name@,
            cleaned@ == s@.take(i as int).map_values(|c: char| if unsafe_char(c) { '_' } else { c }),
        decreases s.len() - i,
    {
        let c = s[i];
        let bad = c == '/' || c == '\\' || c == ':' || c == '*' || c == '?' || c == '"' || c == '<' || c == '>' || c == '|'
            || c < ' ';
        cleaned.push(if bad { '_' } else { c });
        assert(cleaned@ =~= s@.take(i + 1).map_values(|c: char| if unsafe_char(c) { '_' } else { c }));
        i += 1;
    }
    assert(s@.take(s.len() as int) =~= s@);
    let t = crate::text::trimmed(&strip_dots(&crate::text::trimmed(&cleaned)));
    if t.len() == 0 {
        "map".to_string()
    } else {
        string_of(&t)
    }
}

/// The folder a download waits in: named by a digest of the map's name and
/// address, so that two downloads never share one.
pub open spec fn staging_spec(library: Seq<char>, name: Seq<char>, url: Seq<char>) -> Seq<char> {
    join(
        join(library, ".staging"@),
        hex_of(sha256_of(vstd::utf8::encode_utf8(name + "\n"@ + url))).take(16),
    )
}

/// The folder a download of `name` from `url` waits in.
pub fn staging_for(library: &str, name: &str, url: &str) -> (p: String)
    ensures
        p@ == staging_spec(library@, name@, url@),
{
    let mut key = string_of(&chars_of(name));
    push_str(&mut key, "\n");
    push_str(&mut key, url);
    let digest = short(key.as_str().as_bytes(), 8);
    let dir = join_str(library, STAGING);
    join_str(dir.as_str(), digest.as_str())
}

/// The file a bare package download becomes inside its folder: the map's name,
/// made safe, with `.upk`.
pub fn bare_package_name(name: &str) -> (r: String)
    ensures
        r@ == sanitize_spec(name@) + ".upk"@,
{
    let mut r = sanitize(name);
    push_str(&mut r, ".upk");
    r
}

/// Whether the first bytes of a file mark a zip archive: four bytes were read
/// and they begin with `PK`.
pub fn is_zip_header(read: usize, magic: &[u8]) -> (b: bool)
    requires
        magic@.len() >= 2,
    ensures
        b == (read == 4 && magic@[0] == 0x50u8 && magic@[1] == 0x4Bu8),
{
    read == 4 && magic[0] == 0x50 && magic[1] == 0x4B
}

/// An entry of an archive as the archive lists it: its position, whether it is
/// a folder, its file name when it has a safe one, and its declared size.
#[derive(Debug, Clone)]
pub struct RawEntry {
    pub index: usize,
    pub is_dir: bool,
    pub name: Option<String>,
    pub bytes: u64,
}

/// An entry of an archive that will be unpacked, under the name it gets.
#[derive(Debug, Clone, PartialEq, Eq)]
pub struct Planned {
    pub index: usize,
    pub name: String,
    pub bytes: u64,
}

/// Whether a file called `name` is worth taking: it is not hidden and it is a
/// map, a picture or an info file.
pub open spec fn worth_taking_spec(name: Seq<char>) -> bool {
    !(name.len() > 0 && name[0] == '.') && worth_extracting_spec(name)
}

/// Whether a file called `name` is worth taking into the library.
pub fn worth_taking_name(name: &str) -> (b: bool)
    ensures
        b == worth_taking_spec(name@),
{
    let c = chars_of(name);
    if c.len() > 0 && c[0] == '.' {
        return false;
    }
    worth_extracting(name)
}

/// Which entries of an archive are unpacked, in archive order: files, not
/// folders, with a safe name that is worth taking; each under its name made safe,
/// the first of two that come out the same.
pub open spec fn plan_spec(entries: Seq<RawEntry>) -> Seq<(usize, Seq<char>, u64)>
    decreases entries.len(),
{
    if entries.len() == 0 {
        Seq::empty()
    } else {
        let p = plan_spec(entries.drop_last());
        let e = entries.last();
        match e.name {
            Some(n) => if !e.is_dir && worth_taking_spec(n@) && !p.map_values(|x: (usize, Seq<char>, u64)| x.1).contains(sanitize_spec(n@)) {
                p.push((e.index, sanitize_spec(n@), e.bytes))
            } else {
                p
            },
            None => p,
        }
    }
}

/// An archive read in index order is unpacked in index order, and no two
/// entries are unpacked under the same name: a second entry of one name never
/// overwrites the first.
pub proof fn planned_entries_are_in_order_and_distinct(entries: Seq<RawEntry>)
    requires
        forall|i: int, j: int| 0 <= i < j < entries.len() ==> (#[trigger] entries[i]).index < (#[trigger] entries[j]).index,
    ensures
        forall|i: int, j: int|
            0 <= i < j < plan_spec(entries).len() ==> (#[trigger] plan_spec(entries)[i]).0 < (#[trigger] plan_spec(entries)[j]).0
                && plan_spec(entries)[i].1 != plan_spec(entries)[j].1,
        forall|i: int| 0 <= i < plan_spec(entries).len() ==> exists|k: int|
            0 <= k < entries.len() && (#[trigger] entries[k]).index == (#[trigger] plan_spec(entries)[i]).0,
    decreases entries.len(),
{
    if entries.len() > 0 {
        let rest = entries.drop_last();
        planned_entries_are_in_order_and_distinct(rest);
        let p = plan_spec(rest);
        let e = entries.last();
        assert forall|i: int| 0 <= i < p.len() implies (#[trigger] p[i]).0 < e.index by {
            let k = choose|k: int| 0 <= k < rest.len() && (#[trigger] rest[k]).index == p[i].0;
            assert(entries[k] == rest[k]);
            assert(entries[k].index < entries[entries.len() - 1].index);
        }
        match e.name {
            Some(n) => {
                if !e.is_dir && worth_taking_spec(n@) && !p.map_values(|x: (usize, Seq<char>, u64)| x.1).contains(sanitize_spec(n@)) {
                    let q = p.push((e.index, sanitize_spec(n@), e.bytes));
                    assert(plan_spec(entries) == q);
                    assert forall|i: int, j: int| 0 <= i < j < q.len() implies (#[trigger] q[i]).0 < (#[trigger] q[j]).0 && q[i].1 != q[j].1 by {
                        if j == p.len() {
                            assert(p.map_values(|x: (usize, Seq<char>, u64)| x.1)[i] == p[i].1);
                        } else {
                            assert(q[i] == p[i] && q[j] == p[j]);
                        }
                    }
                    assert forall|i: int| 0 <= i < q.len() implies exists|k: int|
                        0 <= k < entries.len() && (#[trigger] entries[k]).index == (#[trigger] q[i]).0 by {
                        if i == p.len() {
                            assert(entries[entries.len() - 1].index == q[i].0);
                        } else {
                            let k = choose|k: int| 0 <= k < rest.len() && (#[trigger] rest[k]).index == p[i].0;
                            assert(entries[k] == rest[k]);
                        }
                    }
                } else {
                    assert(plan_spec(entries) == p);
                    assert forall|i: int| 0 <= i < p.len() implies exists|k: int|
                        0 <= k < entries.len() && (#[trigger] entries[k]).index == (#[trigger] p[i]).0 by {
                        let k = choose|k: int| 0 <= k < rest.len() && (#[trigger] rest[k]).index == p[i].0;
                        assert(entries[k] == rest[k]);
                    }
                }
            },
            None => {
                assert(plan_spec(entries) == p);
                assert forall|i: int| 0 <= i < p.len() implies exists|k: int|
                    0 <= k < entries.len() && (#[trigger] entries[k]).index == (#[trigger] p[i]).0 by {
                    let k = choose|k: int| 0 <= k < rest.len() && (#[trigger] rest[k]).index == p[i].0;
                    assert(entries[k] == rest[k]);
                }
            },
        }
    }
}

pub open spec fn planned_view(p: Seq<Planned>) -> Seq<(usize, Seq<char>, u64)> {
    p.map_values(|e: Planned| (e.index, e.name@, e.bytes))
}

/// Which entries of an archive are unpacked, and under what names.
pub fn plan(entries: &[RawEntry]) -> (r: Vec<Planned>)
    ensures
        planned_view(r@) == plan_spec(entries@),
{
    let mut planned: Vec<Planned> = Vec::new();
    let mut i: usize = 0;
    while i < entries.len()
        invariant
            i <= entries@.len(),
            planned_view(planned@) == plan_spec(entries@.take(i as int)),
        decreases entries@.len() - i,
    {
        let ghost before = planned_view(planned@);
        assert(entries@.take(i + 1).drop_last() =~= entries@.take(i as int));
        assert(entries@.take(i + 1).last() == entries@[i as int]);
        let e = &entries[i];
        match &e.name {
            Some(n) => {
                if !e.is_dir && worth_taking_name(n.as_str()) {
                    let safe = sanitize(n.as_str());
                    let mut seen = false;
                    let mut k: usize = 0;
                    while k < planned.len()
                        invariant
                            k <= planned@.len(),
                            before == planned_view(planned@),
                            seen == exists|m: int| 0 <= m < k && planned@[m].name@ == safe@,
                        decreases planned@.len() - k,
                    {
                        if planned[k].name == safe {
                            seen = true;
                        }
                        k += 1;
                    }
                    proof {
                        let names = before.map_values(|x: (usize, Seq<char>, u64)| x.1);
                        assert(seen == names.contains(safe@)) by {
                            if seen {
                                let m = choose|m: int| 0 <= m < planned@.len() && planned@[m].name@ == safe@;
                                assert(names[m] == safe@);
                            }
                            if names.contains(safe@) {
                                let m = choose|m: int| 0 <= m < names.len() && names[m] == safe@;
                                assert(planned@[m].name@ == safe@);
                            }
                        }
                    }
                    if !seen {
                        planned.push(Planned { index: e.index, name: safe, bytes: e.bytes });
                        assert(planned_view(planned@) =~= before.push((entries@[i as int].index, sanitize_spec(n@), entries@[i as int].bytes)));
                    }
                }
            },
            None => {},
        }
        i += 1;
    }
    assert(entries@.take(entries@.len() as int) =~= entries@);
    planned
}

/// The sum of the sizes.
pub open spec fn total_of(p: Seq<Planned>) -> int
    decreases p.len(),
{
    if p.len() == 0 {
        0
    } else {
        total_of(p.drop_last()) + p.last().bytes
    }
}

/// What the planned entries declare they unpack to, or `u64::MAX` when that
/// does not fit.
pub fn declared_bytes(planned: &[Planned]) -> (r: u64)
    ensures
        r == if total_of(planned@) <= u64::MAX { total_of(planned@) } else { u64::MAX as int },
{
    let mut sum: u64 = 0;
    let mut i: usize = 0;
    while i < planned.len()
        invariant
            i <= planned@.len(),
            sum == if total_of(planned@.take(i as int)) <= u64::MAX { total_of(planned@.take(i as int)) } else { u64::MAX as int },
        decreases planned@.len() - i,
    {
        assert(planned@.take(i + 1).drop_last() =~= planned@.take(i as int));
        sum = sum.saturating_add(planned[i].bytes);
        i += 1;
    }
    assert(planned@.take(planned@.len() as int) =~= planned@);
    sum
}

/// What is left of the unpacking budget after an entry wrote `wrote` bytes, or
/// nothing when it went over.
pub fn charge(budget: u64, wrote: u64) -> (r: Option<u64>)
    ensures
        wrote > budget ==> r is None,
        wrote <= budget ==> r == Some((budget - wrote) as u64),
{
    if wrote > budget {
        None
    } else {
        Some(budget - wrote)
    }
}

/// What an imported file's map is called: the file's stem, or `Map`.
pub open spec fn import_name_spec(file: Seq<char>) -> Seq<char> {
    match file_stem(file) {
        Some(s) => s,
        None => "Map"@,
    }
}

/// What an imported file's map is called.
pub fn import_name(file: &str) -> (r: String)
    ensures
        r@ == import_name_spec(file@),
{
    match stem_of(file) {
        Some(s) => s,
        None => "Map".to_string(),
    }
}

pub open spec fn name_spec(path: Seq<char>) -> Seq<char> {
    match file_name(path) {
        Some(n) => n,
        None => path,
    }
}

pub open spec fn string_views(v: Seq<String>) -> Seq<Seq<char>> {
    v.map_values(|s: String| s@)
}

/// The map files among `picked`, with their sizes, in order.
pub open spec fn maps_among(picked: Seq<String>, sizes: Seq<u64>) -> (Seq<String>, Seq<u64>)
    decreases picked.len(),
{
    if picked.len() == 0 || sizes.len() == 0 {
        (Seq::empty(), Seq::empty())
    } else {
        let rest = maps_among(picked.drop_last(), sizes.drop_last());
        if is_map_spec(picked.last()@) {
            (rest.0.push(picked.last()), rest.1.push(sizes.last()))
        } else {
            rest
        }
    }
}

pub proof fn lemma_maps_among_len(picked: Seq<String>, sizes: Seq<u64>)
    requires
        picked.len() == sizes.len(),
    ensures
        maps_among(picked, sizes).0.len() == maps_among(picked, sizes).1.len(),
    decreases picked.len(),
{
    if picked.len() > 0 {
        lemma_maps_among_len(picked.drop_last(), sizes.drop_last());
    }
}

/// How loose files picked together become one map: the level among the map
/// files (`sizes[i]` is the size of `picked[i]`) names it, without its `_P`; every
/// picked file goes in under its file name. None when no map file was picked.
pub fn import_group_plan(picked: &[String], sizes: &[u64]) -> (r: Result<(String, Vec<(String, String)>), Error>)
    requires
        picked@.len() == sizes@.len(),
    ensures
        match r {
            Ok((name, taken)) => {
                let maps = maps_among(picked@, sizes@);
                &&& exists|l: int| is_level(maps.0, maps.1, l) && name@ == strip_suffix_spec(import_name_spec(maps.0[l]@))
                &&& taken@.len() == picked@.len()
                &&& forall|i: int| 0 <= i < taken@.len() ==> (#[trigger] taken@[i]).0 == picked@[i] && taken@[i].1@ == name_spec(picked@[i]@)
            },
            Err(e) => e matches Error::Archive(m) && m@ == "no map file selected"@ && maps_among(picked@, sizes@).0.len() == 0,
        },
{
    let mut maps: Vec<String> = Vec::new();
    let mut map_sizes: Vec<u64> = Vec::new();
    let mut i: usize = 0;
    while i < picked.len()
        invariant
            i <= picked@.len(),
            picked@.len() == sizes@.len(),
            (maps@, map_sizes@) == maps_among(picked@.take(i as int), sizes@.take(i as int)),
        decreases picked@.len() - i,
    {
        assert(picked@.take(i + 1).drop_last() =~= picked@.take(i as int));
        assert(sizes@.take(i + 1).drop_last() =~= sizes@.take(i as int));
        if is_map(picked[i].as_str()) {
            maps.push(picked[i].clone());
            map_sizes.push(sizes[i]);
        }
        i += 1;
    }
    assert(picked@.take(picked@.len() as int) =~= picked@);
    assert(sizes@.take(sizes@.len() as int) =~= sizes@);
    proof {
        lemma_maps_among_len(picked@, sizes@);
    }
    let level = match pick_level(&maps, &map_sizes) {
        Some(l) => l,
        None => return Err(Error::Archive("no map file selected".to_string())),
    };
    let stem = import_name(maps[level].as_str());
    let name = strip_persistent_suffix(stem.as_str());
    let ghost maps_seq = maps_among(picked@, sizes@);
    assert(is_level(maps_seq.0, maps_seq.1, level as int) && name@ == strip_suffix_spec(import_name_spec(maps_seq.0[level as int]@)));
    let mut taken: Vec<(String, String)> = Vec::new();
    let mut j: usize = 0;
    while j < picked.len()
        invariant
            j <= picked@.len(),
            taken@.len() == j,
            forall|k: int| 0 <= k < j ==> (#[trigger] taken@[k]).0 == picked@[k] && taken@[k].1@ == name_spec(picked@[k]@),
        decreases picked@.len() - j,
    {
        taken.push((picked[j].clone(), name_of(picked[j].as_str())));
        j += 1;
    }
    Ok((name, taken))
}

/// Whether any of `names` is a map file.
pub open spec fn any_map(names: Seq<String>) -> bool {
    exists|i: int| 0 <= i < names.len() && is_map_spec(#[trigger] names[i]@)
}

/// What an imported folder's map is called, given the names of the files worth
/// taking from it: the folder's name. Refused when the folder has no name or
/// holds no map file.
pub fn import_folder_name(dir: &str, taken: &[String]) -> (r: Result<String, Error>)
    ensures
        match file_name(dir@) {
            None => r matches Err(e) && e matches Error::Archive(m) && m@ == "unnamed folder"@,
            Some(n) => if any_map(taken@) {
                r matches Ok(name) && name@ == n
            } else {
                r matches Err(e) && e matches Error::Archive(m) && m@ == "no map file in "@ + n
            },
        },
{
    let name = match file_name_of(&chars_of(dir)) {
        Some(n) => string_of(&n),
        None => return Err(Error::Archive("unnamed folder".to_string())),
    };
    let mut i: usize = 0;
    while i < taken.len()
        invariant
            i <= taken@.len(),
            file_name(dir@) == Some(name@),
            forall|k: int| 0 <= k < i ==> !is_map_spec(#[trigger] taken@[k]@),
        decreases taken@.len() - i,
    {
        if is_map(taken[i].as_str()) {
            assert(is_map_spec(taken@[i as int]@));
            return Ok(name);
        }
        i += 1;
    }
    let mut m = "no map file in ".to_string();
    push_str(&mut m, name.as_str());
    Err(Error::Archive(m))
}

/// The folder tried for a new map of name `base` on try `n`: `base` itself
/// first, then `base (2)`, `base (3)` and so on.
pub open spec fn folder_candidate_spec(library: Seq<char>, base: Seq<char>, n: nat) -> Seq<char> {
    if n == 0 {
        join(library, base)
    } else {
        join(library, base + " ("@ + crate::ui::decimal(n + 1) + ")"@)
    }
}

/// The folder tried for a new map on try `n`.
pub fn folder_candidate(library: &str, base: &str, n: u64) -> (p: String)
    requires
        n < u64::MAX,
    ensures
        p@ == folder_candidate_spec(library@, base@, n as nat),
{
    if n == 0 {
        return join_str(library, base);
    }
    let mut name = string_of(&chars_of(base));
    push_str(&mut name, " (");
    push_str(&mut name, string_of(&crate::ui::decimal_of(n + 1)).as_str());
    push_str(&mut name, ")");
    join_str(library, name.as_str())
}

/// Details of a downloaded map to keep beside it.
#[derive(Debug, Clone, Default)]
pub struct Extras {
    pub author: Option<String>,
    pub blurb: Option<String>,
    pub description: Option<String>,
    pub settings: Option<String>,
    pub checked: bool,
    pub source: Option<String>,
    pub artwork: Option<Vec<u8>>,
}

impl Extras {
    /// The info file written for the map called `name`.
    pub fn info(&self, name: &str) -> (i: Info)
        ensures
            i.name matches Some(n) && n@ == name@,
            i.author == self.author,
            i.description == self.description,
            i.blurb == self.blurb,
            i.settings == self.settings,
            i.settings_checked == self.checked,
            i.source == self.source,
    {
        Info {
            name: Some(name.to_string()),
            author: self.author.clone(),
            description: self.description.clone(),
            blurb: self.blurb.clone(),
            settings: self.settings.clone(),
            settings_checked: self.checked,
            source: self.source.clone(),
        }
    }
}

/// The line that reports an import: what was added and what failed.
pub open spec fn import_summary_spec(added: Seq<Seq<char>>, failed: Seq<Seq<char>>) -> Seq<char> {
    if added.len() == 0 && failed.len() == 0 {
        "Nothing to import"@
    } else if added.len() == 0 {
        join_spec(failed, " \u{b7} "@)
    } else if failed.len() == 0 {
        "Added "@ + join_spec(added, ", "@)
    } else {
        "Added "@ + join_spec(added, ", "@) + " \u{b7} "@ + join_spec(failed, " \u{b7} "@)
    }
}

fn char_vecs(v: &[String]) -> (r: Vec<Vec<char>>)
    ensures
        views(r@) == string_views(v@),
{
    let mut r: Vec<Vec<char>> = Vec::new();
    let mut i: usize = 0;
    while i < v.len()
        invariant
            i <= v@.len(),
            r@.len() == i,
            forall|k: int| 0 <= k < i ==> (#[trigger] r@[k])@ == v@[k]@,
        decreases v@.len() - i,
    {
        r.push(chars_of(v[i].as_str()));
        i += 1;
    }
    assert(views(r@) =~= string_views(v@));
    r
}

/// The line that reports an import.
pub fn import_summary(added: &[String], failed: &[String]) -> (s: String)
    ensures
        s@ == import_summary_spec(string_views(added@), string_views(failed@)),
{
    let dot = chars_of(" \u{b7} ");
    let comma = chars_of(", ");
    let names = string_of(&join_with(&char_vecs(added), &comma));
    let problems = string_of(&join_with(&char_vecs(failed), &dot));
    if added.len() == 0 && failed.len() == 0 {
        "Nothing to import".to_string()
    } else if added.len() == 0 {
        problems
    } else if failed.len() == 0 {
        let mut s = "Added ".to_string();
        push_str(&mut s, names.as_str());
        s
    } else {
        let mut s = "Added ".to_string();
        push_str(&mut s, names.as_str());
        push_str(&mut s, " \u{b7} ");
        push_str(&mut s, problems.as_str());
        s
    }
}


/// How many folders of one name a new map may try: `name`, then `name (2)` up
/// to `name (100)`.
pub const MAX_COPIES: u64 = 100;

/// Why a new map found no folder of its own.
pub fn too_many_copies(base: &str) -> (e: Error)
    ensures
        e matches Error::Archive(m) && m@ == "too many copies of "@ + base@ + " already"@,
{
    let mut m = "too many copies of ".to_string();
    push_str(&mut m, base);
    push_str(&mut m, " already");
    Error::Archive(m)
}

/// Whether what a download answered with may be saved: a refusal reports its
/// `status`; a web page means the host wants a browser.
pub fn download_check(success: bool, status: &str, content_type: Option<&str>) -> (r: Result<(), Error>)
    ensures
        !success ==> (r matches Err(Error::Network(m)) && m@ == "HTTP "@ + status@),
        success && (content_type matches Some(t) && contains(t@, "text/html"@)) ==> (r matches Err(Error::NeedsBrowser)),
        success && !(content_type matches Some(t) && contains(t@, "text/html"@)) ==> r is Ok,
{
    if !success {
        let mut m = "HTTP ".to_string();
        push_str(&mut m, status);
        return Err(Error::Network(m));
    }
    let html = match content_type {
        Some(t) => {
            let marker = chars_of("text/html");
            contains_in(&chars_of(t), &marker)
        },
        None => false,
    };
    if html {
        Err(Error::NeedsBrowser)
    } else {
        Ok(())
    }
}

/// A download that had `written` bytes receives `more`: the new count, or a
/// refusal once it is over the cap.
pub fn download_grows(written: u64, more: u64) -> (r: Result<u64, Error>)
    ensures
        written + more > MAX_UNPACKED ==> (r matches Err(Error::Archive(m)) && m@ == "download exceeded the size cap"@),
        written + more <= MAX_UNPACKED ==> r == Ok::<u64, Error>((written + more) as u64),
{
    if more > MAX_UNPACKED || written > MAX_UNPACKED - more {
        Err(Error::Archive("download exceeded the size cap".to_string()))
    } else {
        Ok(written + more)
    }
}

/// Whether an archive's plan may be unpacked: it must hold something worth
/// taking, and declare no more than the cap. What it declares is returned.
pub fn unpack_check(planned: &[Planned]) -> (r: Result<u64, Error>)
    ensures
        planned@.len() == 0 ==> (r matches Err(Error::Archive(m)) && m@ == "no map files in the archive"@),
        planned@.len() > 0 && total_of(planned@) > MAX_UNPACKED ==> (r matches Err(Error::Archive(m))
            && m@ == "archive unpacks to too much"@),
        planned@.len() > 0 && total_of(planned@) <= MAX_UNPACKED ==> r == Ok::<u64, Error>(total_of(planned@) as u64),
{
    if planned.len() == 0 {
        return Err(Error::Archive("no map files in the archive".to_string()));
    }
    let declared = declared_bytes(planned);
    if declared > MAX_UNPACKED {
        return Err(Error::Archive("archive unpacks to too much".to_string()));
    }
    Ok(declared)
}

/// An entry that wrote `wrote` bytes is charged to what is left of the cap: the
/// rest, or a refusal when it went over.
pub fn spend(budget: u64, wrote: u64) -> (r: Result<u64, Error>)
    ensures
        wrote > budget ==> (r matches Err(Error::Archive(m)) && m@ == "archive unpacks to too much"@),
        wrote <= budget ==> r == Ok::<u64, Error>((budget - wrote) as u64),
{
    match charge(budget, wrote) {
        Some(rest) => Ok(rest),
        None => Err(Error::Archive("archive unpacks to too much".to_string())),
    }
}

/// Whether a picked file is an archive, imported on its own: its extension is
/// `zip`, case aside.
pub fn is_archive(path: &str) -> (b: bool)
    ensures
        b == crate::files::has_ext_spec(path@, seq!["zip"@]),
{
    let exts: [&str; 1] = ["zip"];
    assert(exts@.map_values(|e: &str| e@) =~= seq!["zip"@]);
    crate::files::has_ext(path, &exts)
}

/// How a file that failed to import is reported: its name and why.
pub fn failure_line(path: &str, err: &Error) -> (s: String)
    ensures
        s@ == name_spec(path@) + ": "@ + err.message_spec(),
{
    let mut s = name_of(path);
    push_str(&mut s, ": ");
    push_str(&mut s, err.message().as_str());
    s
}
} // verus!

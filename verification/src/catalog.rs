use vstd::prelude::*;

use crate::paths::join as join_path;
use crate::text::{
    eq_ignore_ascii_case, find, find_in, white, is_whitespace, push_char, find_from, occurs_at, contains, contains_in, trim_start, trim_bounds, append,
    lemma_index_of, starts_with_in, string_of, to_lowercase, ascii_alnum, ascii_lower, chars_of, index_of, join, join_with, lemma_index_bounds, lowercase, push_str, slice_vec,
    split, split_on, starts_with, trim, trimmed, views,
};

verus! {

/// What went wrong while reading the catalog.
#[derive(Debug, Clone, PartialEq, Eq)]
pub enum Error {
    Network(String),
    Parse(String),
}

impl Error {
    /// The sentence shown for this error.
    pub fn message(&self) -> (s: String)
        ensures
            match self {
                Error::Network(e) => s@ == e@,
                Error::Parse(e) => s@ == "the catalog did not look like catalog data: "@ + e@,
            },
    {
        match self {
            Error::Network(e) => e.clone(),
            Error::Parse(e) => {
                let mut s = String::new();
                push_str(&mut s, "the catalog did not look like catalog data: ");
                push_str(&mut s, e.as_str());
                s
            },
        }
    }
}

/// How often a map was downloaded, liked and viewed.
#[derive(Debug, Clone, Default)]
pub struct Counts {
    pub downloads: u64,
    pub likes: u64,
    pub views: u64,
}

/// One map as the catalog lists it.
#[derive(Debug, Clone)]
pub struct Entry {
    pub name: String,
    pub description_short: Option<String>,
    pub description: Option<String>,
    pub download_url: Option<String>,
    pub media: Vec<String>,
    pub counts: Counts,
}

impl Entry {
    /// The first picture of the entry, if it has one.
    pub fn thumbnail(&self) -> (r: Option<&str>)
        ensures
            self.media@.len() == 0 ==> r is None,
            self.media@.len() > 0 ==> (r matches Some(t) && t@ == self.media@[0]@),
    {
        if self.media.len() == 0 {
            None
        } else {
            Some(self.media[0].as_str())
        }
    }
}

/// The paging information of one catalog page.
#[derive(Debug, Clone)]
pub struct Meta {
    pub last_page: u32,
}

/// One page of the catalog.
#[derive(Debug, Clone)]
pub struct Page {
    pub data: Vec<Entry>,
    pub meta: Meta,
}

/// The catalog as it was last saved, with when it was fetched.
#[derive(Debug, Clone)]
pub struct Cache {
    pub fetched_unix: u64,
    pub entries: Vec<Entry>,
}

// ---------------------------------------------------------------------------
// Markup to plain text
// ---------------------------------------------------------------------------

/// `s` without the `/` characters at its start.
pub open spec fn strip_slashes(s: Seq<char>) -> Seq<char>
    decreases s.len(),
{
    if s.len() > 0 && s[0] == '/' {
        strip_slashes(s.drop_first())
    } else {
        s
    }
}

/// The lowercased name a tag starts with.
pub open spec fn tag_name(tag: Seq<char>) -> Seq<char> {
    lowercase(trim(strip_slashes(tag)))
}

/// Whether a tag ends a line: `<br>`, and `<p>` but not `<pre>`.
pub open spec fn breaks_line(tag: Seq<char>) -> bool {
    let n = tag_name(tag);
    starts_with(n, seq!['b', 'r']) || (starts_with(n, seq!['p']) && !starts_with(n, seq!['p', 'r', 'e']))
}

/// Characters an entity name may hold.
pub open spec fn entity_char(c: char) -> bool {
    ascii_alnum(c) || c == '#'
}

/// How many characters of `s` the entity scan takes, with `budget` still allowed.
pub open spec fn entity_len(s: Seq<char>, budget: int) -> int
    decreases s.len(),
{
    if s.len() == 0 || s[0] == ';' || budget <= 0 || !entity_char(s[0]) {
        0
    } else {
        1 + entity_len(s.drop_first(), budget - 1)
    }
}

pub proof fn lemma_entity_len(s: Seq<char>, budget: int)
    ensures
        0 <= entity_len(s, budget) <= s.len(),
        forall|j: int| 0 <= j < entity_len(s, budget) ==> entity_char(#[trigger] s[j]) && s[j] != ';',
        entity_len(s, budget) <= if budget < 0 { 0 } else { budget },
    decreases s.len(),
{
    if !(s.len() == 0 || s[0] == ';' || budget <= 0 || !entity_char(s[0])) {
        lemma_entity_len(s.drop_first(), budget - 1);
        assert forall|j: int| 0 <= j < entity_len(s, budget) implies entity_char(#[trigger] s[j]) && s[j] != ';' by {
            if j > 0 {
                assert(s[j] == s.drop_first()[j - 1]);
            }
        }
    }
}

/// The value of a string of decimal digits.
pub open spec fn decimal(d: Seq<char>) -> nat
    decreases d.len(),
{
    if d.len() == 0 {
        0
    } else {
        decimal(d.drop_last()) * 10 + ((d.last() as int) - ('0' as int)) as nat
    }
}

pub open spec fn is_digit(c: char) -> bool {
    '0' <= c && c <= '9'
}

/// What `str::parse::<u32>` makes of a string that holds no sign.
pub open spec fn parse_u32(d: Seq<char>) -> Option<u32> {
    if d.len() > 0 && (forall|i: int| 0 <= i < d.len() ==> is_digit(#[trigger] d[i])) && decimal(d) <= u32::MAX {
        Some(decimal(d) as u32)
    } else {
        None
    }
}

/// Whether `code` is a Unicode scalar value.
pub open spec fn is_scalar(code: u32) -> bool {
    code < 0xD800 || (0xE000 <= code && code <= 0x10FFFF)
}

/// `char::from_u32`: the character with this code, when there is one.
#[verifier::external_body]
fn char_from(code: u32) -> (r: Option<char>)
    ensures
        r is Some <==> is_scalar(code),
        r matches Some(c) ==> c as u32 == code && c == code as char,
{
    char::from_u32(code)
}

/// The named entities the catalog uses, keyed by their lowercased name.
pub open spec fn named_entity(name: Seq<char>) -> Option<Seq<char>> {
    if name == seq!['a', 'm', 'p'] {
        Some(seq!['&'])
    } else if name == seq!['l', 't'] {
        Some(seq!['<'])
    } else if name == seq!['g', 't'] {
        Some(seq!['>'])
    } else if name == seq!['q', 'u', 'o', 't'] {
        Some(seq!['"'])
    } else if name == seq!['a', 'p', 'o', 's'] {
        Some(seq!['\''])
    } else if name == seq!['n', 'b', 's', 'p'] {
        Some(seq![' '])
    } else if name == seq!['h', 'e', 'l', 'l', 'i', 'p'] {
        Some(seq!['\u{2026}'])
    } else if name == seq!['m', 'd', 'a', 's', 'h'] {
        Some(seq!['\u{2014}'])
    } else if name == seq!['n', 'd', 'a', 's', 'h'] {
        Some(seq!['\u{2013}'])
    } else {
        None
    }
}

/// The text an entity stands for: a named one, or `#` and a decimal code point.
pub open spec fn decode_entity_spec(entity: Seq<char>) -> Option<Seq<char>> {
    let name = entity.map_values(|c: char| ascii_lower(c));
    if named_entity(name) is Some {
        named_entity(name)
    } else if name.len() > 0 && name[0] == '#' {
        match parse_u32(name.drop_first()) {
            Some(code) => if is_scalar(code) {
                Some(seq![code as char])
            } else {
                None
            },
            None => None,
        }
    } else {
        None
    }
}

/// `raw` with its tags dropped, line-ending tags turned into newlines and entities
/// decoded; an entity that is not closed by `;` or not known stays as it was.
pub open spec fn strip_markup(s: Seq<char>) -> Seq<char>
    decreases s.len(),
{
    if s.len() == 0 {
        Seq::empty()
    } else if s[0] == '<' {
        let t = s.drop_first();
        let k = index_of(t, '>');
        proof {
            lemma_index_bounds(t, '>');
        }
        let tag = t.take(k);
        let rest = if k < t.len() { t.skip(k + 1) } else { Seq::empty() };
        (if breaks_line(tag) { seq!['\n'] } else { Seq::empty() }) + strip_markup(rest)
    } else if s[0] == '&' {
        let t = s.drop_first();
        let k = entity_len(t, 8);
        proof {
            lemma_entity_len(t, 8);
        }
        let closed = k < t.len() && t[k] == ';';
        let entity = t.take(k);
        let rest = t.skip(if closed { k + 1 } else { k });
        let shown = if closed && decode_entity_spec(entity) is Some {
            decode_entity_spec(entity).unwrap()
        } else {
            seq!['&'] + entity + (if closed { seq![';'] } else { Seq::empty() })
        };
        shown + strip_markup(rest)
    } else {
        seq![s[0]] + strip_markup(s.drop_first())
    }
}

proof fn lemma_entity_len_word(w: Seq<char>, rest: Seq<char>, budget: int)
    requires
        w.len() <= budget,
        forall|j: int| 0 <= j < w.len() ==> entity_char(#[trigger] w[j]) && w[j] != ';',
        rest.len() > 0,
        rest[0] == ';',
    ensures
        entity_len(w + rest, budget) == w.len(),
    decreases w.len(),
{
    if w.len() == 0 {
        assert((w + rest)[0] == ';');
    } else {
        assert((w + rest)[0] == w[0]);
        assert((w + rest).drop_first() =~= w.drop_first() + rest);
        assert forall|j: int| 0 <= j < w.drop_first().len() implies entity_char(#[trigger] w.drop_first()[j]) && w.drop_first()[j]
            != ';' by {
            assert(w.drop_first()[j] == w[j + 1]);
        }
        lemma_entity_len_word(w.drop_first(), rest, budget - 1);
    }
}

/// A closed entity whose name is lowercase letters is what `decode_entity_spec`
/// makes of the name, then the text after it; an unknown one stays as written.
proof fn lemma_closed_entity(name: Seq<char>, s: Seq<char>)
    requires
        1 <= name.len() <= 8,
        forall|j: int| 0 <= j < name.len() ==> 'a' <= #[trigger] name[j] && name[j] <= 'z',
        named_entity(name) is Some,
    ensures
        strip_markup(seq!['&'] + name + seq![';'] + s) == named_entity(name).unwrap() + strip_markup(s),
{
    let whole = seq!['&'] + name + seq![';'] + s;
    let t = whole.drop_first();
    assert(t =~= name + (seq![';'] + s));
    assert forall|j: int| 0 <= j < name.len() implies entity_char(#[trigger] name[j]) && name[j] != ';' by {}
    lemma_entity_len_word(name, seq![';'] + s, 8);
    let k = entity_len(t, 8);
    assert(k == name.len());
    assert(t[k] == ';');
    assert(t.take(k) =~= name);
    assert(t.skip(k + 1) =~= s);
    assert(name.map_values(|c: char| ascii_lower(c)) =~= name);
    assert(whole[0] == '&');
}

/// The named entities the catalog uses each become their one character: `&amp;`
/// an ampersand, `&lt;` and `&gt;` the angle brackets, `&quot;` and `&apos;` the
/// quotes, `&nbsp;` a space, `&hellip;` an ellipsis, `&mdash;` and `&ndash;` the
/// dashes; the text after the entity follows as it would alone.
pub proof fn named_entities_become_their_characters(s: Seq<char>)
    ensures
        strip_markup(seq!['&', 'a', 'm', 'p', ';'] + s) == seq!['&'] + strip_markup(s),
        strip_markup(seq!['&', 'l', 't', ';'] + s) == seq!['<'] + strip_markup(s),
        strip_markup(seq!['&', 'g', 't', ';'] + s) == seq!['>'] + strip_markup(s),
        strip_markup(seq!['&', 'q', 'u', 'o', 't', ';'] + s) == seq!['"'] + strip_markup(s),
        strip_markup(seq!['&', 'a', 'p', 'o', 's', ';'] + s) == seq!['\''] + strip_markup(s),
        strip_markup(seq!['&', 'n', 'b', 's', 'p', ';'] + s) == seq![' '] + strip_markup(s),
        strip_markup(seq!['&', 'h', 'e', 'l', 'l', 'i', 'p', ';'] + s) == seq!['\u{2026}'] + strip_markup(s),
        strip_markup(seq!['&', 'm', 'd', 'a', 's', 'h', ';'] + s) == seq!['\u{2014}'] + strip_markup(s),
        strip_markup(seq!['&', 'n', 'd', 'a', 's', 'h', ';'] + s) == seq!['\u{2013}'] + strip_markup(s),
{
    let names = seq![
        seq!['a', 'm', 'p'],
        seq!['l', 't'],
        seq!['g', 't'],
        seq!['q', 'u', 'o', 't'],
        seq!['a', 'p', 'o', 's'],
        seq!['n', 'b', 's', 'p'],
        seq!['h', 'e', 'l', 'l', 'i', 'p'],
        seq!['m', 'd', 'a', 's', 'h'],
        seq!['n', 'd', 'a', 's', 'h'],
    ];
    assert forall|i: int| 0 <= i < names.len() implies strip_markup(seq!['&'] + #[trigger] names[i] + seq![';'] + s)
        == named_entity(names[i]).unwrap() + strip_markup(s) by {
        lemma_closed_entity(names[i], s);
    }
    assert(seq!['&', 'a', 'm', 'p', ';'] =~= seq!['&'] + names[0] + seq![';']);
    assert(seq!['&', 'l', 't', ';'] =~= seq!['&'] + names[1] + seq![';']);
    assert(seq!['&', 'g', 't', ';'] =~= seq!['&'] + names[2] + seq![';']);
    assert(seq!['&', 'q', 'u', 'o', 't', ';'] =~= seq!['&'] + names[3] + seq![';']);
    assert(seq!['&', 'a', 'p', 'o', 's', ';'] =~= seq!['&'] + names[4] + seq![';']);
    assert(seq!['&', 'n', 'b', 's', 'p', ';'] =~= seq!['&'] + names[5] + seq![';']);
    assert(seq!['&', 'h', 'e', 'l', 'l', 'i', 'p', ';'] =~= seq!['&'] + names[6] + seq![';']);
    assert(seq!['&', 'm', 'd', 'a', 's', 'h', ';'] =~= seq!['&'] + names[7] + seq![';']);
    assert(seq!['&', 'n', 'd', 'a', 's', 'h', ';'] =~= seq!['&'] + names[8] + seq![';']);
    assert(seq!['&', 'a', 'm', 'p', ';'] + s =~= seq!['&'] + names[0] + seq![';'] + s);
    assert(seq!['&', 'l', 't', ';'] + s =~= seq!['&'] + names[1] + seq![';'] + s);
    assert(seq!['&', 'g', 't', ';'] + s =~= seq!['&'] + names[2] + seq![';'] + s);
    assert(seq!['&', 'q', 'u', 'o', 't', ';'] + s =~= seq!['&'] + names[3] + seq![';'] + s);
    assert(seq!['&', 'a', 'p', 'o', 's', ';'] + s =~= seq!['&'] + names[4] + seq![';'] + s);
    assert(seq!['&', 'n', 'b', 's', 'p', ';'] + s =~= seq!['&'] + names[5] + seq![';'] + s);
    assert(seq!['&', 'h', 'e', 'l', 'l', 'i', 'p', ';'] + s =~= seq!['&'] + names[6] + seq![';'] + s);
    assert(seq!['&', 'm', 'd', 'a', 's', 'h', ';'] + s =~= seq!['&'] + names[7] + seq![';'] + s);
    assert(seq!['&', 'n', 'd', 'a', 's', 'h', ';'] + s =~= seq!['&'] + names[8] + seq![';'] + s);
}

/// Text with no `<` and no `&` holds no markup, and is kept exactly as it is.
pub proof fn text_without_markup_is_kept(s: Seq<char>)
    requires
        forall|j: int| 0 <= j < s.len() ==> s[j] != '<' && s[j] != '&',
    ensures
        strip_markup(s) == s,
    decreases s.len(),
{
    if s.len() > 0 {
        let t = s.drop_first();
        assert forall|j: int| 0 <= j < t.len() implies t[j] != '<' && t[j] != '&' by {
            assert(t[j] == s[j + 1]);
        }
        text_without_markup_is_kept(t);
        assert(s[0] != '<' && s[0] != '&');
        assert(seq![s[0]] + t =~= s);
    }
}

/// The trimmed, non-empty lines among `lines`.
pub open spec fn keep_lines(lines: Seq<Seq<char>>) -> Seq<Seq<char>>
    decreases lines.len(),
{
    if lines.len() == 0 {
        Seq::empty()
    } else {
        let t = trim(lines[0]);
        if t.len() == 0 {
            keep_lines(lines.drop_first())
        } else {
            seq![t] + keep_lines(lines.drop_first())
        }
    }
}

/// The trimmed, non-empty lines of `text`. Splitting at `\n` and trimming gives the
/// same lines as `str::lines` followed by trimming, since a `\r` before the newline is
/// whitespace and empty lines are dropped either way.
pub open spec fn meaningful(text: Seq<char>) -> Seq<Seq<char>> {
    keep_lines(split(text, '\n'))
}

/// `text` as its meaningful lines joined by newlines.
pub open spec fn collapse_spec(text: Seq<char>) -> Seq<char> {
    join(meaningful(text), seq!['\n'])
}

/// What `plain_text` makes of `raw`.
pub open spec fn plain_text_spec(raw: Seq<char>) -> Seq<char> {
    collapse_spec(strip_markup(raw))
}

/// The meaningful lines of `text`.
pub fn meaningful_lines(text: &[char]) -> (r: Vec<Vec<char>>)
    ensures
        views(r@) == meaningful(text@),
{
    let lines = split_on(text, '\n');
    let mut kept: Vec<Vec<char>> = Vec::new();
    let mut i: usize = 0;
    assert(views(lines@).skip(0) =~= views(lines@));
    while i < lines.len()
        invariant
            i <= lines.len(),
            views(lines@) == split(text@, '\n'),
            keep_lines(views(lines@)) == views(kept@) + keep_lines(views(lines@).skip(i as int)),
        decreases lines.len() - i,
    {
        let t = trimmed(&lines[i]);
        proof {
            let rest = views(lines@).skip(i as int);
            assert(rest[0] == lines@[i as int]@);
            assert(rest.drop_first() =~= views(lines@).skip(i + 1));
        }
        if t.len() > 0 {
            proof {
                assert(views(kept@.push(t)) =~= views(kept@).push(t@));
                assert(views(kept@).push(t@) + keep_lines(views(lines@).skip(i + 1)) =~= views(kept@) + (seq![t@] + keep_lines(views(lines@).skip(i + 1))));
            }
            kept.push(t);
        }
        i += 1;
    }
    assert(keep_lines(views(lines@).skip(lines.len() as int)) =~= Seq::<Seq<char>>::empty());
    assert(views(kept@) + Seq::<Seq<char>>::empty() =~= views(kept@));
    kept
}

/// `text` with blank lines dropped and each line trimmed.
pub fn collapse(text: &[char]) -> (r: Vec<char>)
    ensures
        r@ == collapse_spec(text@),
{
    let lines = meaningful_lines(text);
    let mut nl: Vec<char> = Vec::new();
    nl.push('\n');
    assert(nl@ =~= seq!['\n']);
    join_with(&lines, &nl)
}

fn is_ascii_alnum(c: char) -> (b: bool)
    ensures
        b == ascii_alnum(c),
{
    ('a' <= c && c <= 'z') || ('A' <= c && c <= 'Z') || ('0' <= c && c <= '9')
}

fn lower_ascii(c: char) -> (r: char)
    ensures
        r == ascii_lower(c),
{
    if 'A' <= c && c <= 'Z' {
        (((c as u32) + 32) as u8) as char
    } else {
        c
    }
}

/// Whether `s` is exactly the characters of `lit`.
fn is_word(s: &[char], lit: &[char]) -> (b: bool)
    ensures
        b == (s@ == lit@),
{
    if s.len() != lit.len() {
        return false;
    }
    let mut i: usize = 0;
    while i < s.len()
        invariant
            s.len() == lit.len(),
            i <= s.len(),
            forall|j: int| 0 <= j < i ==> s@[j] == lit@[j],
        decreases s.len() - i,
    {
        if s[i] != lit[i] {
            return false;
        }
        i += 1;
    }
    assert(s@ =~= lit@);
    true
}

/// The value of the decimal digits `d`, when they fit in a `u32`.
fn parse_decimal(d: &[char]) -> (r: Option<u32>)
    ensures
        r == parse_u32(d@),
{
    if d.len() == 0 {
        return None;
    }
    let mut value: u64 = 0;
    let mut i: usize = 0;
    while i < d.len()
        invariant
            i <= d.len(),
            forall|j: int| 0 <= j < i ==> is_digit(#[trigger] d@[j]),
            value == decimal(d@.take(i as int)),
            value <= u32::MAX,
        decreases d.len() - i,
    {
        let c = d[i];
        if !('0' <= c && c <= '9') {
            return None;
        }
        assert(d@.take(i + 1).drop_last() =~= d@.take(i as int));
        let next = value * 10 + ((c as u32) - 48) as u64;
        if next > 0xFFFF_FFFF {
            proof {
                if forall|j: int| 0 <= j < d@.len() ==> is_digit(#[trigger] d@[j]) {
                    lemma_decimal_grows(d@, i as int + 1);
                }
            }
            return None;
        }
        value = next;
        i += 1;
    }
    assert(d@.take(d.len() as int) =~= d@);
    Some(value as u32)
}

proof fn lemma_decimal_grows(d: Seq<char>, n: int)
    requires
        0 <= n <= d.len(),
        forall|j: int| 0 <= j < d.len() ==> is_digit(#[trigger] d[j]),
    ensures
        decimal(d) >= decimal(d.take(n)),
    decreases d.len() - n,
{
    if n < d.len() {
        lemma_decimal_grows(d, n + 1);
        assert(d.take(n + 1).drop_last() =~= d.take(n));
        assert(decimal(d.take(n + 1)) >= decimal(d.take(n)));
    } else {
        assert(d.take(n) =~= d);
    }
}

/// The text an entity stands for, if it is one the catalog uses.
pub fn decode_entity(entity: &[char]) -> (r: Option<Vec<char>>)
    ensures
        match r {
            Some(v) => decode_entity_spec(entity@) == Some(v@),
            None => decode_entity_spec(entity@) is None,
        },
{
    let mut name: Vec<char> = Vec::new();
    let mut i: usize = 0;
    while i < entity.len()
        invariant
            i <= entity.len(),
            name@ == entity@.take(i as int).map_values(|c: char| ascii_lower(c)),
        decreases entity.len() - i,
    {
        name.push(lower_ascii(entity[i]));
        assert(entity@.take(i + 1).map_values(|c: char| ascii_lower(c)) =~= entity@.take(i as int).map_values(|c: char| ascii_lower(c)).push(ascii_lower(entity@[i as int])));
        i += 1;
    }
    assert(entity@.take(entity.len() as int) =~= entity@);
    let mut out: Vec<char> = Vec::new();
    if is_word(&name, &['a', 'm', 'p']) {
        out.push('&');
    } else if is_word(&name, &['l', 't']) {
        out.push('<');
    } else if is_word(&name, &['g', 't']) {
        out.push('>');
    } else if is_word(&name, &['q', 'u', 'o', 't']) {
        out.push('"');
    } else if is_word(&name, &['a', 'p', 'o', 's']) {
        out.push('\'');
    } else if is_word(&name, &['n', 'b', 's', 'p']) {
        out.push(' ');
    } else if is_word(&name, &['h', 'e', 'l', 'l', 'i', 'p']) {
        out.push('\u{2026}');
    } else if is_word(&name, &['m', 'd', 'a', 's', 'h']) {
        out.push('\u{2014}');
    } else if is_word(&name, &['n', 'd', 'a', 's', 'h']) {
        out.push('\u{2013}');
    } else {
        assert(named_entity(name@) is None);
        if name.len() > 0 && name[0] == '#' {
            let digits = slice_vec(&name, 1, name.len());
            assert(digits@ =~= name@.drop_first());
            match parse_decimal(&digits) {
                Some(code) => match char_from(code) {
                    Some(c) => {
                        out.push(c);
                        assert(out@ =~= seq![code as char]);
                        return Some(out);
                    },
                    None => return None,
                },
                None => return None,
            }
        }
        return None;
    }
    proof {
        assert(out@.len() == 1);
        assert(named_entity(name@) is Some);
        assert(out@ =~= named_entity(name@).unwrap());
    }
    Some(out)
}

proof fn lemma_entity_len_at(u: Seq<char>, b: int, m: int)
    requires
        0 <= m <= u.len(),
        m <= b,
        forall|j: int| 0 <= j < m ==> u[j] != ';' && entity_char(#[trigger] u[j]),
        m == u.len() || u[m] == ';' || m == b || !entity_char(u[m]),
    ensures
        entity_len(u, b) == m,
    decreases m,
{
    if m > 0 {
        assert forall|j: int| 0 <= j < m - 1 implies u.drop_first()[j] != ';' && entity_char(#[trigger] u.drop_first()[j]) by {
            assert(u.drop_first()[j] == u[j + 1]);
        }
        lemma_entity_len_at(u.drop_first(), b - 1, m - 1);
    }
}

/// Whether the tag whose inside is `tag` ends a line.
fn tag_breaks(tag: &[char]) -> (b: bool)
    ensures
        b == breaks_line(tag@),
{
    let mut i: usize = 0;
    assert(tag@.skip(0) =~= tag@);
    while i < tag.len() && tag[i] == '/'
        invariant
            i <= tag.len(),
            strip_slashes(tag@) == strip_slashes(tag@.skip(i as int)),
        decreases tag.len() - i,
    {
        assert(tag@.skip(i as int).drop_first() =~= tag@.skip(i + 1));
        i += 1;
    }
    let rest = slice_vec(tag, i, tag.len());
    assert(rest@ =~= tag@.skip(i as int));
    let name = chars_of(to_lowercase(string_of(&trimmed(&rest)).as_str()).as_str());
    proof {
        assert(['b', 'r']@ =~= seq!['b', 'r']);
        assert(['p']@ =~= seq!['p']);
        assert(['p', 'r', 'e']@ =~= seq!['p', 'r', 'e']);
    }
    starts_with_in(&name, &['b', 'r']) || (starts_with_in(&name, &['p']) && !starts_with_in(&name, &['p', 'r', 'e']))
}

/// `s` with its markup taken out, as `strip_markup` says.
#[verifier::rlimit(40)]
fn strip_markup_of(s: &[char]) -> (out: Vec<char>)
    ensures
        out@ == strip_markup(s@),
{
    let mut out: Vec<char> = Vec::new();
    let mut i: usize = 0;
    assert(s@.skip(0) =~= s@);
    while i < s.len()
        invariant
            i <= s.len(),
            strip_markup(s@) == out@ + strip_markup(s@.skip(i as int)),
        decreases s.len() - i,
    {
        let ghost t = s@.skip(i as int);
        let ghost before = out@;
        assert(t[0] == s@[i as int]);
        assert(t.drop_first() =~= s@.skip(i + 1));
        if s[i] == '<' {
            let mut j = i + 1;
            while j < s.len() && s[j] != '>'
                invariant
                    i < j <= s.len(),
                    forall|m: int| i < m < j ==> s@[m] != '>',
                decreases s.len() - j,
            {
                j += 1;
            }
            let tag = slice_vec(s, i + 1, j);
            proof {
                let u = t.drop_first();
                lemma_index_of(u, '>', j - i - 1);
                assert(u.take(j - i - 1) =~= tag@);
                if j < s.len() {
                    assert(u.skip(j - i) =~= s@.skip(j + 1));
                } else {
                    assert(s@.skip(s.len() as int) =~= Seq::<char>::empty());
                }
            }
            if tag_breaks(&tag) {
                out.push('\n');
            }
            i = if j < s.len() { j + 1 } else { s.len() };
            proof {
                assert(strip_markup(s@) == out@ + strip_markup(s@.skip(i as int))) by {
                    if breaks_line(tag@) {
                        assert(out@ =~= before + seq!['\n']);
                    } else {
                        assert(out@ =~= before);
                    }
                    assert(before + ((if breaks_line(tag@) { seq!['\n'] } else { Seq::empty() }) + strip_markup(s@.skip(i as int))) =~= out@ + strip_markup(s@.skip(i as int)));
                }
            }
        } else if s[i] == '&' {
            let mut m: usize = 0;
            while i + 1 + m < s.len() && s[i + 1 + m] != ';' && m < 8 && (is_ascii_alnum(s[i + 1 + m]) || s[i + 1 + m] == '#')
                invariant
                    i < s.len(),
                    i + 1 + m <= s.len(),
                    m <= 8,
                    forall|j: int| i + 1 <= j < i + 1 + m ==> s@[j] != ';' && entity_char(#[trigger] s@[j]),
                decreases s.len() - m,
            {
                m += 1;
            }
            let start = i + 1;
            let end = start + m;
            let closed = end < s.len() && s[end] == ';';
            let entity = slice_vec(s, start, end);
            let ghost u = t.drop_first();
            proof {
                assert forall|j: int| 0 <= j < m implies u[j] != ';' && entity_char(#[trigger] u[j]) by {
                    assert(u[j] == s@[start + j]);
                }
                lemma_entity_len_at(u, 8, m as int);
                assert(u.take(m as int) =~= entity@);
                if end < s.len() {
                    assert(u[m as int] == s@[end as int]);
                }
            }
            let decoded = if closed { decode_entity(&entity) } else { None };
            let ghost shown: Seq<char>;
            match decoded {
                Some(text) => {
                    crate::text::append(&mut out, &text);
                    proof { shown = text@; }
                },
                None => {
                    out.push('&');
                    crate::text::append(&mut out, &entity);
                    if closed {
                        out.push(';');
                    }
                    proof {
                        shown = seq!['&'] + entity@ + (if closed { seq![';'] } else { Seq::empty() });
                        if closed {
                            assert(out@ =~= before + shown);
                        } else {
                            assert(out@ =~= before + shown);
                        }
                    }
                },
            }
            i = if closed { end + 1 } else { end };
            proof {
                assert(u.skip(if closed { m + 1 } else { m as int }) =~= s@.skip(i as int));
                assert(out@ =~= before + shown);
                assert(before + (shown + strip_markup(s@.skip(i as int))) =~= out@ + strip_markup(s@.skip(i as int)));
            }
        } else {
            out.push(s[i]);
            proof {
                assert(before + (seq![s@[i as int]] + strip_markup(s@.skip(i + 1))) =~= out@ + strip_markup(s@.skip(i + 1)));
            }
            i += 1;
        }
    }
    assert(strip_markup(s@.skip(s.len() as int)) =~= Seq::<char>::empty());
    assert(out@ + Seq::<char>::empty() =~= out@);
    out
}

/// Catalog markup as plain text: tags dropped, `<br>` and `<p>` as line breaks,
/// entities decoded, every line trimmed and blank lines removed.
pub fn plain_text(raw: &str) -> (r: String)
    ensures
        r@ == plain_text_spec(raw@),
{
    let s = chars_of(raw);
    let stripped = strip_markup_of(&s);
    string_of(&collapse(&stripped))
}

// ---------------------------------------------------------------------------
// Links in text
// ---------------------------------------------------------------------------

/// A run of plain text, or a link found in it.
#[derive(Debug, Clone, PartialEq, Eq)]
pub enum Chunk {
    Text(String),
    Link(String),
}

/// A chunk as a flag that says whether it is a link, and its text.
pub open spec fn chunk_view(c: Chunk) -> (bool, Seq<char>) {
    match c {
        Chunk::Text(s) => (false, s@),
        Chunk::Link(s) => (true, s@),
    }
}

pub open spec fn chunks_view(v: Seq<Chunk>) -> Seq<(bool, Seq<char>)> {
    v.map_values(|c: Chunk| chunk_view(c))
}

/// The position of the first whitespace in `s`, or its length.
pub open spec fn first_white(s: Seq<char>) -> int
    decreases s.len(),
{
    if s.len() == 0 {
        0
    } else if white(s[0]) {
        0
    } else {
        1 + first_white(s.drop_first())
    }
}

pub proof fn lemma_first_white(s: Seq<char>, k: int)
    requires
        0 <= k <= s.len(),
        forall|j: int| 0 <= j < k ==> !white(#[trigger] s[j]),
        k == s.len() || white(s[k]),
    ensures
        first_white(s) == k,
    decreases k,
{
    if k > 0 {
        assert forall|j: int| 0 <= j < k - 1 implies !white(#[trigger] s.drop_first()[j]) by {
            assert(s.drop_first()[j] == s[j + 1]);
        }
        lemma_first_white(s.drop_first(), k - 1);
    }
}

pub proof fn lemma_first_white_bounds(s: Seq<char>)
    ensures
        0 <= first_white(s) <= s.len(),
        s.len() > 0 && !white(s[0]) ==> first_white(s) >= 1,
        forall|j: int| 0 <= j < first_white(s) ==> !white(#[trigger] s[j]),
        first_white(s) < s.len() ==> white(s[first_white(s)]),
    decreases s.len(),
{
    if s.len() > 0 && !white(s[0]) {
        lemma_first_white_bounds(s.drop_first());
        if first_white(s) < s.len() {
            assert(s[first_white(s)] == s.drop_first()[first_white(s) - 1]);
        }
        assert forall|j: int| 0 <= j < first_white(s) implies !white(#[trigger] s[j]) by {
            if j > 0 {
                assert(s[j] == s.drop_first()[j - 1]);
            }
        }
    }
}

/// Punctuation that ends a sentence rather than a link.
pub open spec fn trailing_punct(c: char) -> bool {
    c == '.' || c == ',' || c == ';' || c == ':' || c == '!' || c == '?' || c == ')' || c == ']' || c == '"' || c == '\''
}

/// `u` without the punctuation at its end.
pub open spec fn trim_punct(u: Seq<char>) -> Seq<char>
    decreases u.len(),
{
    if u.len() > 0 && trailing_punct(u.last()) {
        trim_punct(u.drop_last())
    } else {
        u
    }
}

proof fn lemma_trim_punct_last(u: Seq<char>)
    ensures
        trim_punct(u).len() == 0 || !trailing_punct(trim_punct(u).last()),
    decreases u.len(),
{
    if u.len() > 0 && trailing_punct(u.last()) {
        lemma_trim_punct_last(u.drop_last());
    }
}

proof fn lemma_trim_punct_prefix(u: Seq<char>)
    ensures
        trim_punct(u).len() <= u.len(),
        trim_punct(u) == u.take(trim_punct(u).len() as int),
    decreases u.len(),
{
    if u.len() > 0 && trailing_punct(u.last()) {
        lemma_trim_punct_prefix(u.drop_last());
        assert(u.drop_last().take(trim_punct(u).len() as int) =~= u.take(trim_punct(u).len() as int));
    } else {
        assert(u.take(u.len() as int) =~= u);
    }
}

/// The earlier of two positions that may be missing.
pub open spec fn earlier(a: Option<int>, b: Option<int>) -> Option<int> {
    match (a, b) {
        (Some(x), Some(y)) => Some(if x <= y { x } else { y }),
        (Some(x), None) => Some(x),
        (None, y) => y,
    }
}

/// Where the first link in `text` begins: `https://`, `http://` or `www.`.
pub open spec fn link_start(text: Seq<char>) -> Option<int> {
    earlier(
        earlier(find(text, "https://"@), find(text, "http://"@)),
        find(text, "www."@),
    )
}

pub proof fn lemma_find_occurs(s: Seq<char>, p: Seq<char>)
    ensures
        find(s, p) matches Some(i) ==> occurs_at(s, p, i),
{
    crate::text::lemma_find_at(s, p, 0);
}

pub proof fn lemma_link_start(text: Seq<char>)
    ensures
        link_start(text) matches Some(i) ==> 0 <= i < text.len() && !white(text[i]),
{
    reveal_strlit("https://");
    reveal_strlit("http://");
    reveal_strlit("www.");
    lemma_find_occurs(text, "https://"@);
    lemma_find_occurs(text, "http://"@);
    lemma_find_occurs(text, "www."@);
    if let Some(i) = link_start(text) {
        if find(text, "https://"@) == Some(i) {
            assert(text.subrange(i, i + 8)[0] == text[i]);
        } else if find(text, "http://"@) == Some(i) {
            assert(text.subrange(i, i + 7)[0] == text[i]);
        } else {
            assert(text.subrange(i, i + 4)[0] == text[i]);
        }
    }
}

/// The chunks `linkify` cuts `text` into.
pub open spec fn linkify_spec(text: Seq<char>) -> Seq<(bool, Seq<char>)>
    decreases text.len(),
{
    match link_start(text) {
        None => if text.len() > 0 {
            seq![(false, text)]
        } else {
            Seq::empty()
        },
        Some(start) => {
            proof {
                lemma_link_start(text);
            }
            if 0 <= start < text.len() && !white(text[start]) {
                let pre = if start > 0 { seq![(false, text.take(start))] } else { Seq::empty() };
                let tail = text.skip(start);
                let end = first_white(tail);
                proof {
                    lemma_first_white_bounds(tail);
                    assert(tail[0] == text[start]);
                }
                let url = trim_punct(tail.take(end));
                let mid = if url.len() == 0 {
                    seq![(false, tail.take(end))]
                } else if url.len() < end {
                    seq![(true, url), (false, tail.subrange(url.len() as int, end))]
                } else {
                    seq![(true, url)]
                };
                pre + mid + linkify_spec(tail.skip(end))
            } else {
                Seq::empty()
            }
        },
    }
}

/// All the chunks' texts, one after another.
pub open spec fn flatten(chunks: Seq<(bool, Seq<char>)>) -> Seq<char>
    decreases chunks.len(),
{
    if chunks.len() == 0 {
        Seq::empty()
    } else {
        chunks[0].1 + flatten(chunks.drop_first())
    }
}

proof fn lemma_flatten_append(a: Seq<(bool, Seq<char>)>, b: Seq<(bool, Seq<char>)>)
    ensures
        flatten(a + b) == flatten(a) + flatten(b),
    decreases a.len(),
{
    if a.len() == 0 {
        assert(a + b =~= b);
    } else {
        lemma_flatten_append(a.drop_first(), b);
        assert((a + b).drop_first() =~= a.drop_first() + b);
    }
}

/// The first link in `text`, as a position.
fn link_start_in(text: &[char]) -> (r: Option<usize>)
    ensures
        match r {
            Some(i) => link_start(text@) == Some(i as int),
            None => link_start(text@) is None,
        },
{
    let a = find_in(text, &['h', 't', 't', 'p', 's', ':', '/', '/']);
    let b = find_in(text, &['h', 't', 't', 'p', ':', '/', '/']);
    let c = find_in(text, &['w', 'w', 'w', '.']);
    proof {
        reveal_strlit("https://");
        reveal_strlit("http://");
        reveal_strlit("www.");
        assert(['h', 't', 't', 'p', 's', ':', '/', '/']@ =~= "https://"@);
        assert(['h', 't', 't', 'p', ':', '/', '/']@ =~= "http://"@);
        assert(['w', 'w', 'w', '.']@ =~= "www."@);
    }
    let ab = match (a, b) {
        (Some(x), Some(y)) => Some(if x <= y { x } else { y }),
        (Some(x), None) => Some(x),
        (None, y) => y,
    };
    match (ab, c) {
        (Some(x), Some(y)) => Some(if x <= y { x } else { y }),
        (Some(x), None) => Some(x),
        (None, y) => y,
    }
}

fn is_trailing_punct(c: char) -> (b: bool)
    ensures
        b == trailing_punct(c),
{
    c == '.' || c == ',' || c == ';' || c == ':' || c == '!' || c == '?' || c == ')' || c == ']' || c == '"' || c == '\''
}

fn text_chunk(v: &[char]) -> (c: Chunk)
    ensures
        chunk_view(c) == (false, v@),
{
    Chunk::Text(string_of(v))
}

/// Splits `text` into plain runs and the links in it, each link without the
/// punctuation that ends its sentence.
pub fn linkify(text: &str) -> (chunks: Vec<Chunk>)
    ensures
        chunks_view(chunks@) == linkify_spec(text@),
{
    let all = chars_of(text);
    let mut chunks: Vec<Chunk> = Vec::new();
    let mut pos: usize = 0;
    assert(all@.skip(0) =~= all@);
    while pos < all.len()
        invariant
            pos <= all.len(),
            all@ == text@,
            linkify_spec(text@) == chunks_view(chunks@) + linkify_spec(all@.skip(pos as int)),
        decreases all.len() - pos,
    {
        let rest = slice_vec(&all, pos, all.len());
        assert(rest@ =~= all@.skip(pos as int));
        let ghost before = chunks_view(chunks@);
        match link_start_in(&rest) {
            None => {
                chunks.push(text_chunk(&rest));
                proof {
                    assert(chunks_view(chunks@) =~= before.push((false, rest@)));
                    assert(all@.skip(all.len() as int) =~= Seq::<char>::empty());
                    assert(before + seq![(false, rest@)] =~= chunks_view(chunks@) + linkify_spec(Seq::<char>::empty()));
                }
                pos = all.len();
            },
            Some(start) => {
                proof {
                    lemma_link_start(rest@);
                }
                if start > 0 {
                    chunks.push(text_chunk(&slice_vec(&rest, 0, start)));
                    assert(rest@.subrange(0, start as int) =~= rest@.take(start as int));
                }
                let ghost pre = chunks_view(chunks@).skip(before.len() as int);
                let mut end = start;
                while end < rest.len() && !is_whitespace(rest[end])
                    invariant
                        start <= end <= rest.len(),
                        forall|j: int| start <= j < end ==> !white(#[trigger] rest@[j]),
                    decreases rest.len() - end,
                {
                    end += 1;
                }
                let ghost tail = rest@.skip(start as int);
                proof {
                    assert forall|j: int| 0 <= j < end - start implies !white(#[trigger] tail[j]) by {
                        assert(tail[j] == rest@[start + j]);
                    }
                    if end < rest.len() {
                        assert(tail[end - start] == rest@[end as int]);
                    }
                    lemma_first_white(tail, end - start);
                }
                let mut cut = end;
                while cut > start && is_trailing_punct(rest[cut - 1])
                    invariant
                        start <= cut <= end <= rest.len(),
                        trim_punct(rest@.subrange(start as int, end as int)) == trim_punct(rest@.subrange(start as int, cut as int)),
                    decreases cut,
                {
                    assert(rest@.subrange(start as int, cut as int).drop_last() =~= rest@.subrange(start as int, cut - 1));
                    cut -= 1;
                }
                proof {
                    let u = rest@.subrange(start as int, cut as int);
                    assert(!(u.len() > 0 && trailing_punct(u.last())));
                    assert(trim_punct(u) == u);
                    assert(tail.take(end - start) =~= rest@.subrange(start as int, end as int));
                }
                let ghost url = rest@.subrange(start as int, cut as int);
                if cut == start {
                    chunks.push(text_chunk(&slice_vec(&rest, start, end)));
                } else {
                    chunks.push(Chunk::Link(string_of(&slice_vec(&rest, start, cut))));
                    if cut < end {
                        chunks.push(text_chunk(&slice_vec(&rest, cut, end)));
                        assert(tail.subrange(cut - start, end - start) =~= rest@.subrange(cut as int, end as int));
                    }
                }
                pos = pos + end;
                proof {
                    assert(tail.skip(end - start) =~= all@.skip(pos as int));
                    let mid = if url.len() == 0 {
                        seq![(false, tail.take(end - start))]
                    } else if url.len() < end - start {
                        seq![(true, url), (false, tail.subrange(url.len() as int, end - start))]
                    } else {
                        seq![(true, url)]
                    };
                    let pre_s = if start > 0 { seq![(false, rest@.take(start as int))] } else { Seq::empty() };
                    assert(chunks_view(chunks@) =~= before + pre_s + mid);
                    assert(linkify_spec(rest@) == pre_s + mid + linkify_spec(tail.skip(end - start)));
                    assert(before + (pre_s + mid + linkify_spec(all@.skip(pos as int))) =~= chunks_view(chunks@) + linkify_spec(all@.skip(pos as int)));
                }
            },
        }
    }
    assert(linkify_spec(all@.skip(all.len() as int)) =~= Seq::<(bool, Seq<char>)>::empty());
    assert(chunks_view(chunks@) + Seq::<(bool, Seq<char>)>::empty() =~= chunks_view(chunks@));
    chunks
}

/// Nothing of the text is lost or added when it is cut into chunks.
pub proof fn linkify_keeps_the_text(text: Seq<char>)
    ensures
        flatten(linkify_spec(text)) == text,
    decreases text.len(),
{
    match link_start(text) {
        None => {
            let one = seq![(false, text)];
            if text.len() > 0 {
                assert(one.drop_first() =~= Seq::<(bool, Seq<char>)>::empty());
                assert(flatten(one) == one[0].1 + flatten(one.drop_first()));
                assert(flatten(one) =~= text);
            } else {
                assert(text =~= Seq::<char>::empty());
            }
        },
        Some(start) => {
            lemma_link_start(text);
            let pre = if start > 0 { seq![(false, text.take(start))] } else { Seq::empty() };
            let tail = text.skip(start);
            lemma_first_white_bounds(tail);
            assert(tail[0] == text[start]);
            let end = first_white(tail);
            let url = trim_punct(tail.take(end));
            lemma_trim_punct_prefix(tail.take(end));
            let mid = if url.len() == 0 {
                seq![(false, tail.take(end))]
            } else if url.len() < end {
                seq![(true, url), (false, tail.subrange(url.len() as int, end))]
            } else {
                seq![(true, url)]
            };
            linkify_keeps_the_text(tail.skip(end));
            lemma_flatten_append(pre + mid, linkify_spec(tail.skip(end)));
            lemma_flatten_append(pre, mid);
            let nothing = Seq::<(bool, Seq<char>)>::empty();
            assert(flatten(nothing) == Seq::<char>::empty());
            assert(flatten(pre) =~= text.take(start)) by {
                if start > 0 {
                    assert(pre.drop_first() =~= nothing);
                    assert(flatten(pre) == pre[0].1 + flatten(pre.drop_first()));
                } else {
                    assert(pre =~= nothing);
                }
            }
            assert(flatten(mid) =~= tail.take(end)) by {
                if url.len() == 0 {
                    assert(mid.drop_first() =~= nothing);
                    assert(flatten(mid) == mid[0].1 + flatten(mid.drop_first()));
                } else if url.len() < end {
                    assert(mid.drop_first() =~= seq![(false, tail.subrange(url.len() as int, end))]);
                    assert(mid.drop_first().drop_first() =~= nothing);
                    assert(flatten(mid.drop_first()) == mid.drop_first()[0].1 + flatten(mid.drop_first().drop_first()));
                    assert(flatten(mid) == mid[0].1 + flatten(mid.drop_first()));
                    assert(tail.take(end) =~= url + tail.subrange(url.len() as int, end));
                } else {
                    assert(mid.drop_first() =~= nothing);
                    assert(flatten(mid) == mid[0].1 + flatten(mid.drop_first()));
                }
            }
            assert(text =~= text.take(start) + tail.take(end) + tail.skip(end));
            assert(linkify_spec(text) == pre + mid + linkify_spec(tail.skip(end)));
        },
    }
}

/// Every link found is non-empty and holds no whitespace.
pub proof fn links_are_whole_words(text: Seq<char>, i: int)
    requires
        0 <= i < linkify_spec(text).len(),
        linkify_spec(text)[i].0,
    ensures
        linkify_spec(text)[i].1.len() > 0,
        forall|j: int| 0 <= j < linkify_spec(text)[i].1.len() ==> !white(#[trigger] linkify_spec(text)[i].1[j]),
        !trailing_punct(linkify_spec(text)[i].1.last()),
    decreases text.len(),
{
    match link_start(text) {
        None => {},
        Some(start) => {
            lemma_link_start(text);
            let pre = if start > 0 { seq![(false, text.take(start))] } else { Seq::<(bool, Seq<char>)>::empty() };
            let tail = text.skip(start);
            lemma_first_white_bounds(tail);
            assert(tail[0] == text[start]);
            let end = first_white(tail);
            let url = trim_punct(tail.take(end));
            lemma_trim_punct_prefix(tail.take(end));
            let mid = if url.len() == 0 {
                seq![(false, tail.take(end))]
            } else if url.len() < end {
                seq![(true, url), (false, tail.subrange(url.len() as int, end))]
            } else {
                seq![(true, url)]
            };
            let whole = pre + mid + linkify_spec(tail.skip(end));
            assert(linkify_spec(text) == whole);
            if i >= pre.len() + mid.len() {
                links_are_whole_words(tail.skip(end), i - pre.len() - mid.len());
                assert(whole[i] == linkify_spec(tail.skip(end))[i - pre.len() - mid.len()]);
            } else {
                assert(whole[i] == (pre + mid)[i]);
                assert(i >= pre.len());
                assert((pre + mid)[i] == mid[i - pre.len()]);
                assert(mid[i - pre.len()].1 == url);
                assert forall|j: int| 0 <= j < url.len() implies !white(#[trigger] url[j]) by {
                    assert(url[j] == tail.take(end)[j]);
                    assert(tail.take(end)[j] == tail[j]);
                }
                lemma_trim_punct_last(tail.take(end));
            }
        },
    }
}

/// No link ends in punctuation that closes a sentence or a bracket: the last
/// character of every link is none of `. , ; : ! ? ) ] " '`, so such a character
/// after a link comes back as text.
pub proof fn links_never_end_in_punctuation(text: Seq<char>, i: int)
    requires
        0 <= i < linkify_spec(text).len(),
        linkify_spec(text)[i].0,
    ensures
        ({
            let c = linkify_spec(text)[i].1.last();
            &&& c != '.' && c != ',' && c != ';' && c != ':' && c != '!'
            &&& c != '?' && c != ')' && c != ']' && c != '"' && c != '\''
        }),
{
    links_are_whole_words(text, i);
}

proof fn lemma_trim_punct_keeps(u: Seq<char>, n: int)
    requires
        0 < n <= u.len(),
        !trailing_punct(u[n - 1]),
    ensures
        trim_punct(u).len() >= n,
        trim_punct(u).take(n) == u.take(n),
    decreases u.len(),
{
    lemma_trim_punct_prefix(u);
    if u.len() > 0 && trailing_punct(u.last()) {
        assert(u.len() - 1 != n - 1);
        assert(u.drop_last()[n - 1] == u[n - 1]);
        lemma_trim_punct_keeps(u.drop_last(), n);
        assert(u.drop_last().take(n) =~= u.take(n));
    }
    let t = trim_punct(u);
    assert(t.take(n) =~= u.take(t.len() as int).take(n));
    assert(u.take(t.len() as int).take(n) =~= u.take(n));
}

/// The start of a link that `text` begins with: `https://`, `http://`, or `www`
/// of a `www.`, whichever opens it.
proof fn lemma_link_head(text: Seq<char>, start: int) -> (head: Seq<char>)
    requires
        link_start(text) == Some(start),
    ensures
        head == "https://"@ || head == "http://"@ || head == "www"@,
        0 < head.len(),
        start + head.len() <= text.len(),
        text.subrange(start, start + head.len()) == head,
        !trailing_punct(head.last()),
        forall|j: int| 0 <= j < head.len() ==> !white(#[trigger] head[j]),
{
    reveal_strlit("https://");
    reveal_strlit("http://");
    reveal_strlit("www.");
    reveal_strlit("www");
    lemma_find_occurs(text, "https://"@);
    lemma_find_occurs(text, "http://"@);
    lemma_find_occurs(text, "www."@);
    if find(text, "https://"@) == Some(start) {
        "https://"@
    } else if find(text, "http://"@) == Some(start) {
        "http://"@
    } else {
        assert(find(text, "www."@) == Some(start));
        assert(text.subrange(start, start + 3) =~= text.subrange(start, start + 4).take(3));
        "www"@
    }
}

/// Every link starts as links do: with `https://`, with `http://`, or with the
/// `www` of a `www.` address.
pub proof fn links_start_with_their_scheme(text: Seq<char>, i: int)
    requires
        0 <= i < linkify_spec(text).len(),
        linkify_spec(text)[i].0,
    ensures
        starts_with(linkify_spec(text)[i].1, "https://"@) || starts_with(linkify_spec(text)[i].1, "http://"@)
            || starts_with(linkify_spec(text)[i].1, "www"@),
    decreases text.len(),
{
    match link_start(text) {
        None => {},
        Some(start) => {
            lemma_link_start(text);
            let head = lemma_link_head(text, start);
            let pre = if start > 0 { seq![(false, text.take(start))] } else { Seq::<(bool, Seq<char>)>::empty() };
            let tail = text.skip(start);
            lemma_first_white_bounds(tail);
            assert(tail[0] == text[start]);
            let end = first_white(tail);
            let url = trim_punct(tail.take(end));
            lemma_trim_punct_prefix(tail.take(end));
            let mid = if url.len() == 0 {
                seq![(false, tail.take(end))]
            } else if url.len() < end {
                seq![(true, url), (false, tail.subrange(url.len() as int, end))]
            } else {
                seq![(true, url)]
            };
            let whole = pre + mid + linkify_spec(tail.skip(end));
            assert(linkify_spec(text) == whole);
            if i >= pre.len() + mid.len() {
                links_start_with_their_scheme(tail.skip(end), i - pre.len() - mid.len());
                assert(whole[i] == linkify_spec(tail.skip(end))[i - pre.len() - mid.len()]);
            } else {
                assert(whole[i] == (pre + mid)[i]);
                assert(i >= pre.len());
                assert((pre + mid)[i] == mid[i - pre.len()]);
                let n = head.len() as int;
                assert forall|j: int| 0 <= j < n implies tail[j] == head[j] by {
                    assert(tail[j] == text[start + j]);
                    assert(text.subrange(start, start + n)[j] == text[start + j]);
                }
                assert(end >= n) by {
                    if end < n {
                        assert(end < tail.len());
                        assert(white(tail[end]));
                        assert(tail[end] == head[end]);
                    }
                }
                assert(tail.take(end)[n - 1] == head[n - 1]);
                lemma_trim_punct_keeps(tail.take(end), n);
                assert(url.take(n) =~= head) by {
                    assert forall|j: int| 0 <= j < n implies url.take(n)[j] == head[j] by {
                        assert(url.take(n)[j] == tail.take(end).take(n)[j]);
                    }
                }
                assert(mid[i - pre.len()].1 == url);
            }
        },
    }
}

/// No chunk is empty: every piece of text and every link holds a character.
pub proof fn no_chunk_is_empty(text: Seq<char>, i: int)
    requires
        0 <= i < linkify_spec(text).len(),
    ensures
        linkify_spec(text)[i].1.len() > 0,
    decreases text.len(),
{
    match link_start(text) {
        None => {},
        Some(start) => {
            lemma_link_start(text);
            let pre = if start > 0 { seq![(false, text.take(start))] } else { Seq::<(bool, Seq<char>)>::empty() };
            let tail = text.skip(start);
            lemma_first_white_bounds(tail);
            assert(tail[0] == text[start]);
            let end = first_white(tail);
            let url = trim_punct(tail.take(end));
            lemma_trim_punct_prefix(tail.take(end));
            let mid = if url.len() == 0 {
                seq![(false, tail.take(end))]
            } else if url.len() < end {
                seq![(true, url), (false, tail.subrange(url.len() as int, end))]
            } else {
                seq![(true, url)]
            };
            let whole = pre + mid + linkify_spec(tail.skip(end));
            assert(linkify_spec(text) == whole);
            if i >= pre.len() + mid.len() {
                no_chunk_is_empty(tail.skip(end), i - pre.len() - mid.len());
                assert(whole[i] == linkify_spec(tail.skip(end))[i - pre.len() - mid.len()]);
            } else if i < pre.len() {
                assert(whole[i] == pre[i]);
            } else {
                assert(whole[i] == mid[i - pre.len()]);
            }
        },
    }
}

/// Text that holds no `https://`, `http://` or `www.` is one plain chunk, or no
/// chunk at all when it is empty.
pub proof fn text_without_links_is_one_chunk(text: Seq<char>)
    requires
        !contains(text, "https://"@),
        !contains(text, "http://"@),
        !contains(text, "www."@),
    ensures
        linkify_spec(text) == if text.len() > 0 {
            seq![(false, text)]
        } else {
            Seq::<(bool, Seq<char>)>::empty()
        },
{
    lemma_find_occurs(text, "https://"@);
    lemma_find_occurs(text, "http://"@);
    lemma_find_occurs(text, "www."@);
    assert(find(text, "https://"@) is None);
    assert(find(text, "http://"@) is None);
    assert(find(text, "www."@) is None);
    assert(link_start(text) is None);
}

/// `url` with a scheme: left alone when it has one, given `https://` otherwise.
pub fn absolute(url: &str) -> (r: String)
    ensures
        r@ == if starts_with(url@, "http://"@) || starts_with(url@, "https://"@) {
            url@
        } else {
            "https://"@ + url@
        },
{
    let u = chars_of(url);
    proof {
        reveal_strlit("https://");
        reveal_strlit("http://");
        assert(['h', 't', 't', 'p', 's', ':', '/', '/']@ =~= "https://"@);
        assert(['h', 't', 't', 'p', ':', '/', '/']@ =~= "http://"@);
    }
    if starts_with_in(&u, &['h', 't', 't', 'p', ':', '/', '/']) || starts_with_in(&u, &['h', 't', 't', 'p', 's', ':', '/', '/']) {
        string_of(&u)
    } else {
        let mut r = String::new();
        push_str(&mut r, "https://");
        push_str(&mut r, url);
        r
    }
}

// ---------------------------------------------------------------------------
// Recommended settings on a map's page
// ---------------------------------------------------------------------------

/// How many bytes `c` takes in UTF-8.
pub open spec fn utf8_width(c: char) -> nat {
    let v = c as u32;
    if v < 0x80 {
        1
    } else if v < 0x800 {
        2
    } else if v < 0x10000 {
        3
    } else {
        4
    }
}

/// How many bytes `s` takes in UTF-8.
pub open spec fn utf8_len(s: Seq<char>) -> nat
    decreases s.len(),
{
    if s.len() == 0 {
        0
    } else {
        utf8_len(s.drop_last()) + utf8_width(s.last())
    }
}

/// How many characters from the start of `s` fit in `limit` bytes.
pub open spec fn chars_within(s: Seq<char>, limit: int) -> nat
    decreases s.len(),
{
    if s.len() == 0 || utf8_width(s[0]) > limit {
        0
    } else {
        1 + chars_within(s.drop_first(), limit - utf8_width(s[0]))
    }
}

pub proof fn lemma_chars_within(s: Seq<char>, limit: int)
    ensures
        chars_within(s, limit) <= s.len(),
    decreases s.len(),
{
    if !(s.len() == 0 || utf8_width(s[0]) > limit) {
        lemma_chars_within(s.drop_first(), limit - utf8_width(s[0]));
    }
}

fn width_of(c: char) -> (w: usize)
    ensures
        w == utf8_width(c),
{
    let v = c as u32;
    if v < 0x80 {
        1
    } else if v < 0x800 {
        2
    } else if v < 0x10000 {
        3
    } else {
        4
    }
}

/// How many characters of `s` fit in `limit` bytes, and how many bytes they take.
fn fit_bytes(s: &[char], limit: usize) -> (r: (usize, usize))
    ensures
        r.0 == chars_within(s@, limit as int),
        r.1 == utf8_len(s@.take(r.0 as int)),
        r.1 <= limit,
{
    let mut k: usize = 0;
    let mut used: usize = 0;
    assert(s@.skip(0) =~= s@);
    assert(s@.take(0) =~= Seq::<char>::empty());
    while k < s.len() && width_of(s[k]) <= limit - used
        invariant
            k <= s.len(),
            used <= limit,
            used == utf8_len(s@.take(k as int)),
            chars_within(s@, limit as int) == k + chars_within(s@.skip(k as int), limit - used),
        decreases s.len() - k,
    {
        let w = width_of(s[k]);
        proof {
            let t = s@.skip(k as int);
            assert(t[0] == s@[k as int]);
            assert(t.drop_first() =~= s@.skip(k + 1));
            assert(s@.take(k + 1).drop_last() =~= s@.take(k as int));
        }
        used = used + w;
        k += 1;
    }
    proof {
        let t = s@.skip(k as int);
        if k < s.len() {
            assert(t[0] == s@[k as int]);
        }
    }
    (k, used)
}

/// The largest character boundary of `text` at or before byte `at`.
pub fn floor_boundary(text: &str, at: usize) -> (cut: usize)
    ensures
        cut == utf8_len(text@.take(chars_within(text@, at as int) as int)),
        cut <= at,
{
    let s = chars_of(text);
    let (_, bytes) = fit_bytes(&s, at);
    bytes
}

/// Whether `c` is whitespace in the sense of `char::is_ascii_whitespace`.
pub open spec fn ascii_space(c: char) -> bool {
    c == ' ' || c == '\t' || c == '\n' || c == '\u{0C}' || c == '\r'
}

/// Where the tag's name ends: at ASCII whitespace or `>`, or at its end.
pub open spec fn name_end(s: Seq<char>) -> int
    decreases s.len(),
{
    if s.len() == 0 || ascii_space(s[0]) || s[0] == '>' {
        0
    } else {
        1 + name_end(s.drop_first())
    }
}

/// `s` without the `<` characters at its start.
pub open spec fn strip_lt(s: Seq<char>) -> Seq<char>
    decreases s.len(),
{
    if s.len() > 0 && s[0] == '<' {
        strip_lt(s.drop_first())
    } else {
        s
    }
}

/// `s` with ASCII letters lowered.
pub open spec fn ascii_lowered(s: Seq<char>) -> Seq<char> {
    s.map_values(|c: char| ascii_lower(c))
}

/// The link a tag points at: the `href` of an `a` tag, quoted or bare.
pub open spec fn href_spec(tag: Seq<char>) -> Option<Seq<char>> {
    let opened = trim_start(strip_lt(tag));
    let name = opened.take(name_end(opened));
    if !eq_ignore_ascii_case(name, seq!['a']) {
        None
    } else {
        match find(ascii_lowered(tag), "href="@) {
            None => None,
            Some(at) => {
                let rest = trim_start(tag.skip(at + 5));
                if rest.len() == 0 {
                    None
                } else {
                    let quote = rest[0];
                    let value = if quote == '"' || quote == '\'' {
                        let inner = rest.drop_first();
                        inner.take(index_of(inner, quote))
                    } else {
                        rest.take(first_white(rest))
                    };
                    if value.len() == 0 {
                        None
                    } else {
                        Some(value)
                    }
                }
            },
        }
    }
}

proof fn lemma_name_end(s: Seq<char>, k: int)
    requires
        0 <= k <= s.len(),
        forall|j: int| 0 <= j < k ==> !ascii_space(#[trigger] s[j]) && s[j] != '>',
        k == s.len() || ascii_space(s[k]) || s[k] == '>',
    ensures
        name_end(s) == k,
    decreases k,
{
    if k > 0 {
        assert forall|j: int| 0 <= j < k - 1 implies !ascii_space(#[trigger] s.drop_first()[j]) && s.drop_first()[j] != '>' by {
            assert(s.drop_first()[j] == s[j + 1]);
        }
        lemma_name_end(s.drop_first(), k - 1);
    }
}

pub fn lowered(s: &[char]) -> (r: Vec<char>)
    ensures
        r@ == ascii_lowered(s@),
{
    let mut r: Vec<char> = Vec::new();
    let mut i: usize = 0;
    while i < s.len()
        invariant
            i <= s.len(),
            r@ == s@.take(i as int).map_values(|c: char| ascii_lower(c)),
        decreases s.len() - i,
    {
        r.push(lower_ascii(s[i]));
        assert(s@.take(i + 1).map_values(|c: char| ascii_lower(c)) =~= s@.take(i as int).map_values(|c: char| ascii_lower(c)).push(ascii_lower(s@[i as int])));
        i += 1;
    }
    assert(s@.take(s.len() as int) =~= s@);
    r
}

/// Where the first whitespace of `s` stands, from `from` on, or its length.
fn white_from(s: &[char], from: usize) -> (k: usize)
    requires
        from <= s.len(),
    ensures
        from <= k <= s.len(),
        first_white(s@.skip(from as int)) == k - from,
{
    let mut k = from;
    while k < s.len() && !is_whitespace(s[k])
        invariant
            from <= k <= s.len(),
            forall|j: int| from <= j < k ==> !white(#[trigger] s@[j]),
        decreases s.len() - k,
    {
        k += 1;
    }
    proof {
        let t = s@.skip(from as int);
        assert forall|j: int| 0 <= j < k - from implies !white(#[trigger] t[j]) by {
            assert(t[j] == s@[from + j]);
        }
        if k < s.len() {
            assert(t[k - from] == s@[k as int]);
        }
        lemma_first_white(t, k - from);
    }
    k
}

/// Where `c` first stands in `s` from `from` on, or the length of `s`.
fn char_from_pos(s: &[char], from: usize, c: char) -> (k: usize)
    requires
        from <= s.len(),
    ensures
        from <= k <= s.len(),
        index_of(s@.skip(from as int), c) == k - from,
{
    let mut k = from;
    while k < s.len() && s[k] != c
        invariant
            from <= k <= s.len(),
            forall|j: int| from <= j < k ==> s@[j] != c,
        decreases s.len() - k,
    {
        k += 1;
    }
    proof {
        let t = s@.skip(from as int);
        assert forall|j: int| 0 <= j < k - from implies t[j] != c by {
            assert(t[j] == s@[from + j]);
        }
        if k < s.len() {
            assert(t[k - from] == s@[k as int]);
        }
        lemma_index_of(t, c, k - from);
    }
    k
}

/// The link an `a` tag points at, if it has one.
pub fn href_in(tag: &str) -> (r: Option<String>)
    ensures
        match r {
            Some(v) => href_spec(tag@) == Some(v@),
            None => href_spec(tag@) is None,
        },
{
    let t = chars_of(tag);
    let mut i: usize = 0;
    assert(t@.skip(0) =~= t@);
    while i < t.len() && t[i] == '<'
        invariant
            i <= t.len(),
            t@ == tag@,
            strip_lt(t@) == strip_lt(t@.skip(i as int)),
        decreases t.len() - i,
    {
        assert(t@.skip(i as int).drop_first() =~= t@.skip(i + 1));
        i += 1;
    }
    let after_lt = slice_vec(&t, i, t.len());
    assert(after_lt@ =~= t@.skip(i as int));
    let (o, _) = trim_bounds(&after_lt);
    let opened = slice_vec(&after_lt, o, after_lt.len());
    assert(opened@ =~= after_lt@.skip(o as int));
    let mut n: usize = 0;
    while n < opened.len() && !(opened[n] == ' ' || opened[n] == '\t' || opened[n] == '\n' || opened[n] == '\u{0C}' || opened[n] == '\r' || opened[n] == '>')
        invariant
            n <= opened.len(),
            forall|j: int| 0 <= j < n ==> !ascii_space(#[trigger] opened@[j]) && opened@[j] != '>',
        decreases opened.len() - n,
    {
        n += 1;
    }
    proof {
        lemma_name_end(opened@, n as int);
    }
    let is_a = n == 1 && lower_ascii(opened[0]) == 'a';
    proof {
        let name = opened@.take(n as int);
        if is_a {
            assert(ascii_lowered(name) =~= ascii_lowered(seq!['a']));
        } else if n == 1 {
            assert(ascii_lowered(name)[0] != ascii_lowered(seq!['a'])[0]);
        } else {
            assert(ascii_lowered(name).len() != ascii_lowered(seq!['a']).len());
        }
    }
    if !is_a {
        return None;
    }
    let low = lowered(&t);
    proof {
        reveal_strlit("href=");
        assert(['h', 'r', 'e', 'f', '=']@ =~= "href="@);
    }
    let at = match find_in(&low, &['h', 'r', 'e', 'f', '=']) {
        None => return None,
        Some(at) => at,
    };
    proof {
        crate::text::lemma_find_at(low@, "href="@, 0);
    }
    let start = at + 5;
    let tail = slice_vec(&t, start, t.len());
    assert(tail@ =~= t@.skip(start as int));
    let (b, _) = trim_bounds(&tail);
    let rest = slice_vec(&tail, b, tail.len());
    assert(rest@ =~= tail@.skip(b as int));
    if rest.len() == 0 {
        return None;
    }
    let quote = rest[0];
    let value = if quote == '"' || quote == '\'' {
        let k = char_from_pos(&rest, 1, quote);
        let v = slice_vec(&rest, 1, k);
        proof {
            assert(rest@.skip(1) =~= rest@.drop_first());
            assert(v@ =~= rest@.drop_first().take(k - 1));
        }
        v
    } else {
        let k = white_from(&rest, 0);
        assert(rest@.skip(0) =~= rest@);
        let v = slice_vec(&rest, 0, k);
        assert(v@ =~= rest@.take(k as int));
        v
    };
    if value.len() == 0 {
        None
    } else {
        Some(string_of(&value))
    }
}

/// What the tag contributes to the text: its link between spaces, or nothing.
pub open spec fn href_part(tag: Seq<char>) -> Seq<char> {
    match href_spec(tag) {
        Some(h) => seq![' '] + h + seq![' '],
        None => Seq::empty(),
    }
}

/// `html` with each tag replaced by a line break and, for a link, its destination.
/// A `<` that is never closed starts a tag cut short: it ends the text, and no
/// markup of it is kept.
pub open spec fn links_text(rest: Seq<char>) -> Seq<char>
    decreases rest.len(),
{
    let at = index_of(rest, '<');
    proof {
        lemma_index_bounds(rest, '<');
    }
    if at >= rest.len() {
        rest
    } else {
        let after = rest.skip(at);
        let close = index_of(after, '>');
        proof {
            lemma_index_bounds(after, '>');
        }
        if close >= after.len() {
            rest.take(at) + seq!['\n']
        } else {
            rest.take(at) + seq!['\n'] + href_part(after.take(close)) + links_text(after.skip(close + 1))
        }
    }
}

/// `html` as text that keeps the links it holds.
pub fn text_with_links(html: &[char]) -> (out: Vec<char>)
    ensures
        out@ == links_text(html@),
{
    let mut out: Vec<char> = Vec::new();
    let mut pos: usize = 0;
    assert(html@.skip(0) =~= html@);
    while pos < html.len()
        invariant
            pos <= html.len(),
            links_text(html@) == out@ + links_text(html@.skip(pos as int)),
        decreases html.len() - pos,
    {
        let ghost rest = html@.skip(pos as int);
        let ghost before = out@;
        let at = char_from_pos(html, pos, '<');
        if at == html.len() {
            append(&mut out, &slice_vec(html, pos, html.len()));
            proof {
                assert(html@.subrange(pos as int, html.len() as int) =~= rest);
                assert(html@.skip(html.len() as int) =~= Seq::<char>::empty());
                assert(links_text(Seq::<char>::empty()) =~= Seq::<char>::empty());
                assert(out@ + links_text(html@.skip(html.len() as int)) =~= out@);
            }
            pos = html.len();
        } else {
            let close = char_from_pos(html, at, '>');
            proof {
                assert(rest.skip(at - pos) =~= html@.skip(at as int));
                assert(rest.take(at - pos) =~= html@.subrange(pos as int, at as int));
            }
            if close == html.len() {
                append(&mut out, &slice_vec(html, pos, at));
                out.push('\n');
                proof {
                    assert(out@ =~= before + (rest.take(at - pos) + seq!['\n']));
                    assert(html@.skip(html.len() as int) =~= Seq::<char>::empty());
                    assert(links_text(Seq::<char>::empty()) =~= Seq::<char>::empty());
                    assert(out@ + links_text(html@.skip(html.len() as int)) =~= out@);
                }
                pos = html.len();
            } else {
                append(&mut out, &slice_vec(html, pos, at));
                out.push('\n');
                let tag = slice_vec(html, at, close);
                let ghost after = html@.skip(at as int);
                proof {
                    assert(after.take(close - at) =~= tag@);
                    assert(after.skip(close - at + 1) =~= html@.skip(close + 1));
                }
                match href_in(string_of(&tag).as_str()) {
                    Some(h) => {
                        out.push(' ');
                        append(&mut out, &chars_of(h.as_str()));
                        out.push(' ');
                    },
                    None => {},
                }
                proof {
                    assert(out@ =~= before + (rest.take(at - pos) + seq!['\n'] + href_part(tag@)));
                    assert(links_text(rest) == rest.take(at - pos) + seq!['\n'] + href_part(tag@) + links_text(html@.skip(close + 1)));
                    assert(before + (rest.take(at - pos) + seq!['\n'] + href_part(tag@) + links_text(html@.skip(close + 1))) =~= out@ + links_text(html@.skip(close + 1)));
                }
                pos = close + 1;
            }
        }
    }
    assert(links_text(html@.skip(html.len() as int)) =~= Seq::<char>::empty()) by {
        assert(html@.skip(html.len() as int) =~= Seq::<char>::empty());
    }
    assert(out@ + Seq::<char>::empty() =~= out@);
    out
}

/// Whether a line looks like page script rather than settings.
pub open spec fn is_script(line: Seq<char>) -> bool {
    contains(line, "window."@) || contains(line, "function"@)
}

/// The lines before the first script line, at most `n` of them.
pub open spec fn settings_lines(lines: Seq<Seq<char>>, n: int) -> Seq<Seq<char>>
    decreases lines.len(),
{
    if lines.len() == 0 || n <= 0 || is_script(lines[0]) {
        Seq::empty()
    } else {
        seq![lines[0]] + settings_lines(lines.drop_first(), n - 1)
    }
}

/// The recommended settings a map's page lists: up to four lines of the text
/// within 800 bytes after the "Recommended Settings" label, stopping at script.
pub open spec fn settings_spec(html: Seq<char>) -> Option<Seq<char>> {
    match find(html, "Recommended Settings"@) {
        None => None,
        Some(p) => {
            let after = html.skip(p + 20);
            let tail = after.take(chars_within(after, 800) as int);
            let lines = settings_lines(meaningful(links_text(tail)), 4);
            if lines.len() == 0 {
                None
            } else {
                Some(join(lines, seq!['\n']))
            }
        },
    }
}

/// The text the settings are read from: what follows the label, up to 800 bytes
/// of it; nothing when the page has no label.
pub open spec fn settings_window(html: Seq<char>) -> Seq<char> {
    match find(html, "Recommended Settings"@) {
        None => Seq::empty(),
        Some(p) => {
            let after = html.skip(p + 20);
            after.take(chars_within(after, 800) as int)
        },
    }
}

/// The link destinations `links_text` writes into the text of `rest`, in order.
pub open spec fn links_in(rest: Seq<char>) -> Seq<Seq<char>>
    decreases rest.len(),
{
    let at = index_of(rest, '<');
    proof {
        lemma_index_bounds(rest, '<');
    }
    if at >= rest.len() {
        Seq::empty()
    } else {
        let after = rest.skip(at);
        let close = index_of(after, '>');
        proof {
            lemma_index_bounds(after, '>');
        }
        if close >= after.len() {
            Seq::empty()
        } else {
            (match href_spec(after.take(close)) {
                Some(h) => seq![h],
                None => Seq::empty(),
            }) + links_in(after.skip(close + 1))
        }
    }
}

proof fn lemma_href_part_free(tag: Seq<char>)
    requires
        href_spec(tag) matches Some(h) ==> forall|j: int| 0 <= j < h.len() ==> h[j] != '<',
    ensures
        forall|j: int| 0 <= j < href_part(tag).len() ==> href_part(tag)[j] != '<',
{
    if let Some(h) = href_spec(tag) {
        let part = seq![' '] + h + seq![' '];
        assert forall|j: int| 0 <= j < part.len() implies part[j] != '<' by {
            if 0 < j < part.len() - 1 {
                assert(part[j] == h[j - 1]);
            }
        }
    }
}

proof fn lemma_links_text_free(rest: Seq<char>)
    requires
        forall|i: int, j: int| 0 <= i < links_in(rest).len() && 0 <= j < links_in(rest)[i].len() ==> links_in(rest)[i][j] != '<',
    ensures
        forall|j: int| 0 <= j < links_text(rest).len() ==> links_text(rest)[j] != '<',
    decreases rest.len(),
{
    let at = index_of(rest, '<');
    lemma_index_bounds(rest, '<');
    if at < rest.len() {
        let after = rest.skip(at);
        let close = index_of(after, '>');
        lemma_index_bounds(after, '>');
        let head = rest.take(at) + seq!['\n'];
        assert forall|j: int| 0 <= j < head.len() implies head[j] != '<' by {
            if j < at {
                assert(head[j] == rest[j]);
            }
        }
        if close < after.len() {
            let tag = after.take(close);
            let later = after.skip(close + 1);
            let own: Seq<Seq<char>> = match href_spec(tag) {
                Some(h) => seq![h],
                None => Seq::empty(),
            };
            assert(links_in(rest) == own + links_in(later));
            if let Some(h) = href_spec(tag) {
                assert(links_in(rest)[0] == h);
            }
            assert forall|i: int, j: int| 0 <= i < links_in(later).len() && 0 <= j < links_in(later)[i].len() implies links_in(
                later,
            )[i][j] != '<' by {
                assert(links_in(rest)[own.len() + i] == links_in(later)[i]);
            }
            lemma_links_text_free(later);
            lemma_href_part_free(tag);
            let whole = head + href_part(tag) + links_text(later);
            assert(links_text(rest) == whole);
            assert forall|j: int| 0 <= j < whole.len() implies whole[j] != '<' by {
                if j < head.len() {
                    assert(whole[j] == head[j]);
                } else if j < head.len() + href_part(tag).len() {
                    assert(whole[j] == href_part(tag)[j - head.len()]);
                } else {
                    assert(whole[j] == links_text(later)[j - head.len() - href_part(tag).len()]);
                }
            }
        } else {
            assert(links_text(rest) == head);
        }
    } else {
        assert forall|j: int| 0 <= j < rest.len() implies rest[j] != '<' by {}
    }
}

/// No markup survives in the settings: when no link destination the settings
/// text carries holds a `<`, the settings hold none.
pub proof fn settings_keep_no_markup(html: Seq<char>)
    requires
        forall|i: int, j: int|
            0 <= i < links_in(settings_window(html)).len() && 0 <= j < links_in(settings_window(html))[i].len()
                ==> links_in(settings_window(html))[i][j] != '<',
    ensures
        settings_spec(html) matches Some(s) ==> !s.contains('<'),
{
    if let Some(s) = settings_spec(html) {
        let window = settings_window(html);
        let text = links_text(window);
        lemma_links_text_free(window);
        lemma_split_without(text, '\n', '<');
        lemma_keep_lines_free(split(text, '\n'), '<');
        let m = meaningful(text);
        let lines = settings_lines(m, 4);
        lemma_settings_lines(m, 4);
        assert forall|i: int, j: int| 0 <= i < lines.len() && 0 <= j < lines[i].len() implies lines[i][j] != '<' by {
            let k = choose|k: int| 0 <= k < m.len() && m[k] == lines[i];
            assert(m[k][j] == lines[i][j]);
        }
        lemma_join_without(lines, seq!['\n'], '<');
        assert(s == join(lines, seq!['\n']));
        if s.contains('<') {
            let j = choose|j: int| 0 <= j < s.len() && s[j] == '<';
            assert(false);
        }
    }
}

proof fn lemma_keep_lines_clean(lines: Seq<Seq<char>>)
    ensures
        forall|i: int| 0 <= i < keep_lines(lines).len() ==> (#[trigger] keep_lines(lines)[i]).len() > 0 && trim(
            keep_lines(lines)[i],
        ) == keep_lines(lines)[i],
    decreases lines.len(),
{
    if lines.len() > 0 {
        lemma_keep_lines_clean(lines.drop_first());
        crate::text::lemma_trim_trimmed(lines[0]);
        let rest = keep_lines(lines.drop_first());
        if trim(lines[0]).len() > 0 {
            assert forall|i: int| 0 <= i < keep_lines(lines).len() implies (#[trigger] keep_lines(lines)[i]).len() > 0 && trim(
                keep_lines(lines)[i],
            ) == keep_lines(lines)[i] by {
                if i > 0 {
                    assert(keep_lines(lines)[i] == rest[i - 1]);
                }
            }
        }
    }
}

proof fn lemma_settings_lines(lines: Seq<Seq<char>>, n: int)
    ensures
        settings_lines(lines, n).len() <= if n > 0 { n } else { 0 },
        forall|i: int| 0 <= i < settings_lines(lines, n).len() ==> !is_script(#[trigger] settings_lines(lines, n)[i])
            && lines.contains(settings_lines(lines, n)[i]),
    decreases lines.len(),
{
    if !(lines.len() == 0 || n <= 0 || is_script(lines[0])) {
        lemma_settings_lines(lines.drop_first(), n - 1);
        let rest = settings_lines(lines.drop_first(), n - 1);
        assert forall|i: int| 0 <= i < settings_lines(lines, n).len() implies !is_script(#[trigger] settings_lines(lines, n)[i])
            && lines.contains(settings_lines(lines, n)[i]) by {
            if i == 0 {
                assert(lines[0] == settings_lines(lines, n)[0]);
            } else {
                assert(settings_lines(lines, n)[i] == rest[i - 1]);
                let k = choose|k: int| 0 <= k < lines.drop_first().len() && lines.drop_first()[k] == rest[i - 1];
                assert(lines[k + 1] == rest[i - 1]);
            }
        }
    }
}

/// A page without the "Recommended Settings" label yields nothing; otherwise
/// the settings are one to four lines, each non-empty, trimmed and no script.
pub proof fn settings_are_a_few_clean_lines(html: Seq<char>)
    ensures
        !contains(html, "Recommended Settings"@) ==> settings_spec(html) is None,
        settings_spec(html) matches Some(s) ==> exists|lines: Seq<Seq<char>>|
            1 <= lines.len() <= 4 && s == join(lines, seq!['\n']) && forall|i: int|
                0 <= i < lines.len() ==> (#[trigger] lines[i]).len() > 0 && trim(lines[i]) == lines[i] && !is_script(lines[i]),
{
    lemma_find_occurs(html, "Recommended Settings"@);
    match find(html, "Recommended Settings"@) {
        None => {},
        Some(p) => {
            let after = html.skip(p + 20);
            let tail = after.take(chars_within(after, 800) as int);
            let m = meaningful(links_text(tail));
            let lines = settings_lines(m, 4);
            lemma_settings_lines(m, 4);
            lemma_keep_lines_clean(split(links_text(tail), '\n'));
            assert forall|i: int| 0 <= i < lines.len() implies (#[trigger] lines[i]).len() > 0 && trim(lines[i]) == lines[i]
                && !is_script(lines[i]) by {
                let k = choose|k: int| 0 <= k < m.len() && m[k] == lines[i];
                assert(m[k].len() > 0 && trim(m[k]) == m[k]);
            }
        },
    }
}

proof fn lemma_keep_lines_free(lines: Seq<Seq<char>>, c: char)
    requires
        forall|i: int, j: int| 0 <= i < lines.len() && 0 <= j < lines[i].len() ==> lines[i][j] != c,
    ensures
        forall|i: int, j: int| 0 <= i < keep_lines(lines).len() && 0 <= j < keep_lines(lines)[i].len() ==> keep_lines(lines)[i][j]
            != c,
    decreases lines.len(),
{
    if lines.len() > 0 {
        lemma_keep_lines_free(lines.drop_first(), c);
        assert forall|j: int| 0 <= j < lines[0].len() implies lines[0][j] != c by {}
        crate::text::lemma_trim_within(lines[0], c);
        let rest = keep_lines(lines.drop_first());
        assert forall|i: int, j: int| 0 <= i < keep_lines(lines).len() && 0 <= j < keep_lines(lines)[i].len() implies keep_lines(
            lines,
        )[i][j] != c by {
            if trim(lines[0]).len() > 0 && i > 0 {
                assert(keep_lines(lines)[i] == rest[i - 1]);
            } else if trim(lines[0]).len() == 0 {
                assert(keep_lines(lines)[i] == rest[i]);
            }
        }
    }
}

proof fn lemma_strip_markup_no_tag(s: Seq<char>)
    requires
        forall|j: int| 0 <= j < s.len() ==> s[j] != '&',
    ensures
        forall|j: int| 0 <= j < strip_markup(s).len() ==> strip_markup(s)[j] != '<',
    decreases s.len(),
{
    if s.len() == 0 {
    } else if s[0] == '<' {
        let t = s.drop_first();
        let k = index_of(t, '>');
        lemma_index_bounds(t, '>');
        let rest = if k < t.len() { t.skip(k + 1) } else { Seq::empty() };
        assert forall|j: int| 0 <= j < rest.len() implies rest[j] != '&' by {
            assert(rest[j] == s[k + 2 + j]);
        }
        lemma_strip_markup_no_tag(rest);
        let head: Seq<char> = if breaks_line(t.take(k)) { seq!['\n'] } else { Seq::empty() };
        assert(strip_markup(s) == head + strip_markup(rest));
        assert forall|j: int| 0 <= j < strip_markup(s).len() implies strip_markup(s)[j] != '<' by {
            if j >= head.len() {
                assert(strip_markup(s)[j] == strip_markup(rest)[j - head.len()]);
            }
        }
    } else {
        let t = s.drop_first();
        assert forall|j: int| 0 <= j < t.len() implies t[j] != '&' by {
            assert(t[j] == s[j + 1]);
        }
        lemma_strip_markup_no_tag(t);
        assert(strip_markup(s) == seq![s[0]] + strip_markup(t));
        assert forall|j: int| 0 <= j < strip_markup(s).len() implies strip_markup(s)[j] != '<' by {
            if j > 0 {
                assert(strip_markup(s)[j] == strip_markup(t)[j - 1]);
            }
        }
    }
}

proof fn lemma_split_without(s: Seq<char>, c: char, d: char)
    requires
        forall|j: int| 0 <= j < s.len() ==> s[j] != d,
    ensures
        forall|i: int, j: int| 0 <= i < split(s, c).len() && 0 <= j < split(s, c)[i].len() ==> split(s, c)[i][j] != d,
    decreases s.len(),
{
    lemma_index_bounds(s, c);
    let k = index_of(s, c);
    if k < s.len() {
        let after = s.skip(k + 1);
        assert forall|j: int| 0 <= j < after.len() implies after[j] != d by {
            assert(after[j] == s[k + 1 + j]);
        }
        lemma_split_without(after, c, d);
        let rest = split(after, c);
        assert forall|i: int, j: int| 0 <= i < split(s, c).len() && 0 <= j < split(s, c)[i].len() implies split(s, c)[i][j]
            != d by {
            if i > 0 {
                assert(split(s, c)[i] == rest[i - 1]);
            } else {
                assert(split(s, c)[0][j] == s[j]);
            }
        }
    }
}

proof fn lemma_join_without(parts: Seq<Seq<char>>, sep: Seq<char>, d: char)
    requires
        forall|i: int, j: int| 0 <= i < parts.len() && 0 <= j < parts[i].len() ==> parts[i][j] != d,
        forall|j: int| 0 <= j < sep.len() ==> sep[j] != d,
    ensures
        forall|j: int| 0 <= j < join(parts, sep).len() ==> join(parts, sep)[j] != d,
    decreases parts.len(),
{
    if parts.len() > 1 {
        let front = parts.drop_last();
        assert forall|i: int, j: int| 0 <= i < front.len() && 0 <= j < front[i].len() implies front[i][j] != d by {
            assert(front[i] == parts[i]);
        }
        lemma_join_without(front, sep, d);
        let a = join(front, sep);
        let last = parts.last();
        assert(join(parts, sep) == a + sep + last);
        assert forall|j: int| 0 <= j < join(parts, sep).len() implies join(parts, sep)[j] != d by {
            if j < a.len() {
                assert(join(parts, sep)[j] == a[j]);
            } else if j < a.len() + sep.len() {
                assert(join(parts, sep)[j] == sep[j - a.len()]);
            } else {
                assert(join(parts, sep)[j] == last[j - a.len() - sep.len()]);
                assert(last == parts[parts.len() - 1]);
            }
        }
    } else if parts.len() == 1 {
        assert(join(parts, sep) == parts[0]);
    }
}

/// What `plain_text` gives is lines joined by line breaks, each line non-empty,
/// trimmed and without a line break of its own; from text without `&`, where no
/// entity can spell a `<`, no `<` survives.
pub proof fn plain_text_is_clean_lines(raw: Seq<char>)
    ensures
        exists|lines: Seq<Seq<char>>|
            plain_text_spec(raw) == join(lines, seq!['\n']) && forall|i: int|
                0 <= i < lines.len() ==> (#[trigger] lines[i]).len() > 0 && trim(lines[i]) == lines[i] && !lines[i].contains('\n'),
        !raw.contains('&') ==> !plain_text_spec(raw).contains('<'),
{
    if !raw.contains('&') {
        assert forall|j: int| 0 <= j < raw.len() implies raw[j] != '&' by {
            if raw[j] == '&' {
                assert(raw.contains('&'));
            }
        }
        let text = strip_markup(raw);
        lemma_strip_markup_no_tag(raw);
        lemma_split_without(text, '\n', '<');
        lemma_keep_lines_free(split(text, '\n'), '<');
        lemma_join_without(meaningful(text), seq!['\n'], '<');
        let out = plain_text_spec(raw);
        assert(out == join(meaningful(text), seq!['\n']));
        if out.contains('<') {
            let j = choose|j: int| 0 <= j < out.len() && out[j] == '<';
            assert(false);
        }
    }
    let pieces = split(strip_markup(raw), '\n');
    let lines = meaningful(strip_markup(raw));
    lemma_keep_lines_clean(pieces);
    crate::text::lemma_split_free(strip_markup(raw), '\n');
    lemma_keep_lines_free(pieces, '\n');
    assert forall|i: int| 0 <= i < lines.len() implies (#[trigger] lines[i]).len() > 0 && trim(lines[i]) == lines[i]
        && !lines[i].contains('\n') by {
        if lines[i].contains('\n') {
            let j = choose|j: int| 0 <= j < lines[i].len() && lines[i][j] == '\n';
            assert(false);
        }
    }
    assert(plain_text_spec(raw) == join(lines, seq!['\n']));
}

/// Reads the recommended settings off a map's page.
pub fn parse_settings(html: &str) -> (r: Option<String>)
    ensures
        match r {
            Some(v) => settings_spec(html@) == Some(v@),
            None => settings_spec(html@) is None,
        },
{
    let h = chars_of(html);
    let label = chars_of("Recommended Settings");
    proof {
        reveal_strlit("Recommended Settings");
    }
    let found = find_in(&h, &label);
    if found.is_none() {
        return None;
    }
    let p = found.unwrap();
    proof {
        crate::text::lemma_find_at(h@, label@, 0);
        assert(find(h@, label@) == Some(p as int));
        assert(occurs_at(h@, label@, p as int));
        assert(label@.len() == 20);
    }
    assert(p + label@.len() <= h@.len());
    assert(p + 20 <= h.len());
    let after = slice_vec(&h, p + 20, h.len());
    assert(after@ =~= h@.skip(p + 20));
    let (k, _) = fit_bytes(&after, 800);
    proof {
        lemma_chars_within(after@, 800);
    }
    let tail = slice_vec(&after, 0, k);
    assert(tail@ =~= after@.take(k as int));
    let text = text_with_links(&tail);
    let lines = meaningful_lines(&text);
    let window = chars_of("window.");
    let function = chars_of("function");
    let mut kept: Vec<Vec<char>> = Vec::new();
    let mut i: usize = 0;
    assert(views(lines@).skip(0) =~= views(lines@));
    while i < lines.len() && kept.len() < 4 && !contains_in(&lines[i], &window) && !contains_in(&lines[i], &function)
        invariant
            i <= lines.len(),
            kept.len() == i,
            i <= 4,
            window@ == "window."@,
            function@ == "function"@,
            settings_lines(views(lines@), 4) == views(kept@) + settings_lines(views(lines@).skip(i as int), 4 - i),
        decreases lines.len() - i,
    {
        proof {
            let rest = views(lines@).skip(i as int);
            assert(rest[0] == lines@[i as int]@);
            assert(rest.drop_first() =~= views(lines@).skip(i + 1));
            assert(views(kept@.push(lines[i as int])) =~= views(kept@).push(lines@[i as int]@));
            assert(views(kept@).push(lines@[i as int]@) + settings_lines(views(lines@).skip(i + 1), 4 - i - 1) =~= views(kept@) + (seq![lines@[i as int]@] + settings_lines(views(lines@).skip(i + 1), 4 - i - 1)));
        }
        kept.push(slice_vec(&lines[i], 0, lines[i].len()));
        proof {
            assert(lines@[i as int]@.subrange(0, lines@[i as int]@.len() as int) =~= lines@[i as int]@);
            assert(views(kept@) =~= views(kept@.drop_last()).push(lines@[i as int]@));
        }
        i += 1;
    }
    proof {
        let rest = views(lines@).skip(i as int);
        if i < lines.len() {
            assert(rest[0] == lines@[i as int]@);
        }
        assert(settings_lines(rest, 4 - i) =~= Seq::<Seq<char>>::empty());
        assert(views(kept@) + Seq::<Seq<char>>::empty() =~= views(kept@));
    }
    if kept.len() == 0 {
        None
    } else {
        let mut nl: Vec<char> = Vec::new();
        nl.push('\n');
        assert(nl@ =~= seq!['\n']);
        Some(string_of(&join_with(&kept, &nl)))
    }
}

/// The text between `<title>` and `</title>`.
pub open spec fn title_spec(body: Seq<char>) -> Option<Seq<char>> {
    match find(body, "<title>"@) {
        None => None,
        Some(p) => match find(body.skip(p + 7), "</title>"@) {
            None => None,
            Some(e) => Some(body.subrange(p + 7, p + 7 + e)),
        },
    }
}

/// The title of a page.
pub fn title_in(body: &str) -> (r: Option<String>)
    ensures
        match r {
            Some(t) => title_spec(body@) == Some(t@),
            None => title_spec(body@) is None,
        },
{
    let b = chars_of(body);
    let open = chars_of("<title>");
    let close = chars_of("</title>");
    proof {
        reveal_strlit("<title>");
        reveal_strlit("</title>");
    }
    let found = find_in(&b, &open);
    if found.is_none() {
        return None;
    }
    let p = found.unwrap();
    proof {
        crate::text::lemma_find_at(b@, open@, 0);
        assert(find(b@, open@) == Some(p as int));
        assert(occurs_at(b@, open@, p as int));
        assert(open@.len() == 7);
    }
    assert(p + open@.len() <= b@.len());
    assert(p + 7 <= b.len());
    let rest = slice_vec(&b, p + 7, b.len());
    assert(rest@ =~= b@.skip(p + 7));
    let e = match find_in(&rest, &close) {
        None => return None,
        Some(e) => e,
    };
    proof {
        crate::text::lemma_find_at(rest@, close@, 0);
    }
    let t = slice_vec(&b, p + 7, p + 7 + e);
    Some(string_of(&t))
}

/// Whether a page title, without the site's " - " suffix, names the map.
pub open spec fn title_matches_spec(title: Seq<char>, name: Seq<char>) -> bool {
    let cut = match find(title, " - "@) {
        Some(i) => i,
        None => title.len() as int,
    };
    eq_ignore_ascii_case(trim(title.take(cut)), trim(name))
}

pub fn same_ignoring_ascii_case(a: &[char], b: &[char]) -> (r: bool)
    ensures
        r == eq_ignore_ascii_case(a@, b@),
{
    let la = lowered(a);
    let lb = lowered(b);
    is_word(&la, &lb)
}

/// Whether a page titled `title` is the page of the map called `name`.
pub fn title_matches(title: &str, name: &str) -> (b: bool)
    ensures
        b == title_matches_spec(title@, name@),
{
    let t = chars_of(title);
    let sep = chars_of(" - ");
    proof {
        reveal_strlit(" - ");
    }
    let cut = match find_in(&t, &sep) {
        Some(i) => {
            proof {
                crate::text::lemma_find_at(t@, sep@, 0);
            }
            i
        },
        None => t.len(),
    };
    let head = slice_vec(&t, 0, cut);
    assert(head@ =~= t@.take(cut as int));
    same_ignoring_ascii_case(&trimmed(&head), &trimmed(&chars_of(name)))
}

/// Where the catalog is kept inside `dir`.
pub fn cache_path(dir: &str) -> (p: String)
    ensures
        p@ == join_path(dir@, "lethamyr-catalog.json"@),
{
    crate::paths::join_str(dir, "lethamyr-catalog.json")
}

/// Where the catalog is read, one page at a time.
pub const ENDPOINT: &'static str = "https://lethamyr.com/api/v1/maps";

/// The site the maps' own pages are on.
pub const SITE: &'static str = "https://lethamyr.com";

/// How many catalog pages are read at most.
pub const MAX_PAGES: u32 = 100;

/// The address of catalog page `page`.
pub fn page_request(page: u32) -> (r: String)
    ensures
        r@ == "https://lethamyr.com/api/v1/maps?page="@ + crate::ui::decimal(page as nat),
{
    let mut r = ENDPOINT.to_string();
    proof {
        reveal_strlit("https://lethamyr.com/api/v1/maps");
        reveal_strlit("https://lethamyr.com/api/v1/maps?page=");
        reveal_strlit("?page=");
    }
    push_str(&mut r, "?page=");
    push_str(&mut r, string_of(&crate::ui::decimal_of(page as u64)).as_str());
    assert(r@ =~= "https://lethamyr.com/api/v1/maps?page="@ + crate::ui::decimal(page as nat));
    r
}

/// The last catalog page to read, given the last the catalog reports.
pub fn last_page_to_read(last_page: u32) -> (r: u32)
    ensures
        r == if last_page < MAX_PAGES { last_page } else { MAX_PAGES },
{
    if last_page < MAX_PAGES { last_page } else { MAX_PAGES }
}

/// What a map's own page gives: its address and its recommended settings.
#[derive(Debug, Clone, Default, PartialEq, Eq)]
pub struct PageDetails {
    pub url: Option<String>,
    pub settings: Option<String>,
}

/// The numbers of `ns` that can name a page (one or more), in order.
pub open spec fn page_numbers(ns: Seq<int>) -> Seq<u64>
    decreases ns.len(),
{
    if ns.len() == 0 {
        Seq::empty()
    } else if ns.last() >= 1 {
        page_numbers(ns.drop_last()).push(ns.last() as u64)
    } else {
        page_numbers(ns.drop_last())
    }
}

/// The site numbers the maps' pages near the catalog's order, drifting near the
/// newest end: the page numbers tried for the entry at `index`, nearest first.
pub open spec fn probe_spec(index: int) -> Seq<u64> {
    let guess = index + 1;
    page_numbers(seq![guess, guess + 1, guess - 1, guess + 2, guess - 2, guess + 3, guess - 3])
}

/// The page numbers tried for the catalog entry at `index`, nearest first.
pub fn probe_pages(index: u32) -> (r: Vec<u64>)
    ensures
        r@ == probe_spec(index as int),
{
    let guess: i64 = index as i64 + 1;
    let offsets: [i64; 7] = [0, 1, -1, 2, -2, 3, -3];
    let ghost cands = seq![guess as int, guess + 1, guess - 1, guess + 2, guess - 2, guess + 3, guess - 3];
    let mut r: Vec<u64> = Vec::new();
    let mut i: usize = 0;
    assert(cands.take(0) =~= Seq::<int>::empty());
    while i < 7
        invariant
            i <= 7,
            guess == index + 1,
            offsets@ == seq![0i64, 1i64, -1i64, 2i64, -2i64, 3i64, -3i64],
            cands == seq![guess as int, guess + 1, guess - 1, guess + 2, guess - 2, guess + 3, guess - 3],
            r@ == page_numbers(cands.take(i as int)),
        decreases 7 - i,
    {
        let candidate = guess + offsets[i];
        assert(cands[i as int] == candidate);
        assert(cands.take(i + 1).drop_last() =~= cands.take(i as int));
        if candidate >= 1 {
            r.push(candidate as u64);
        }
        i += 1;
    }
    assert(cands.take(7) =~= cands);
    r
}

/// The address of the site's page numbered `n`.
pub fn page_address(n: u64) -> (r: String)
    ensures
        r@ == "https://lethamyr.com/maps/"@ + crate::ui::decimal(n as nat),
{
    let mut r = SITE.to_string();
    proof {
        reveal_strlit("https://lethamyr.com");
        reveal_strlit("https://lethamyr.com/maps/");
        reveal_strlit("/maps/");
    }
    push_str(&mut r, "/maps/");
    push_str(&mut r, string_of(&crate::ui::decimal_of(n)).as_str());
    assert(r@ =~= "https://lethamyr.com/maps/"@ + crate::ui::decimal(n as nat));
    r
}

/// What the page at `url`, whose text is `body`, tells of the map called `name`:
/// nothing unless its title names the map; then its address and its settings.
pub fn details_from(url: String, body: &str, name: &str) -> (r: Option<PageDetails>)
    ensures
        match title_spec(body@) {
            Some(t) => if title_matches_spec(t, name@) {
                r matches Some(d) && d.url == Some(url) && match d.settings {
                    Some(v) => settings_spec(body@) == Some(v@),
                    None => settings_spec(body@) is None,
                }
            } else {
                r is None
            },
            None => r is None,
        },
{
    let title = match title_in(body) {
        Some(t) => t,
        None => return None,
    };
    if !title_matches(title.as_str(), name) {
        return None;
    }
    Some(PageDetails { settings: parse_settings(body), url: Some(url) })
}

/// Where the catalog's page lives when it cannot be told: the list of maps.
pub fn fallback_page() -> (r: String)
    ensures
        r@ == "https://lethamyr.com/maps"@,
{
    "https://lethamyr.com/maps".to_string()
}

} // verus!




use vstd::prelude::*;

use crate::catalog::{plain_text, plain_text_spec, Entry};
use crate::config::Config;
use crate::library::LocalMap;
use crate::text::{
    alnum, append, ascii_lower, chars_of, is_ascii_char, is_alphanumeric, lower_of, lowercase, lowercase_char, push_str, slice_vec, string_of,
    to_lowercase, trim, trimmed, views,
};

verus! {

/// The key a catalog map's star is kept under.
pub fn catalog_star_key(name: &str) -> (k: String)
    ensures
        k@ == "catalog:"@ + lowercase(trim(name@)),
{
    let t = string_of(&trimmed(&chars_of(name)));
    let lower = to_lowercase(t.as_str());
    let mut k = String::new();
    push_str(&mut k, "catalog:");
    push_str(&mut k, lower.as_str());
    k
}

/// A name reduced to its letters and digits, lowercased.
pub open spec fn identity(s: Seq<char>) -> Seq<char>
    decreases s.len(),
{
    if s.len() == 0 {
        Seq::empty()
    } else {
        identity(s.drop_last()) + if alnum(s.last()) {
            if is_ascii_char(s.last()) {
                seq![ascii_lower(s.last())]
            } else {
                lowercase_char(s.last())
            }
        } else {
            Seq::empty()
        }
    }
}

/// A name reduced to its letters and digits, lowercased.
pub fn catalog_identity(name: &str) -> (r: Vec<char>)
    ensures
        r@ == identity(name@),
{
    let s = chars_of(name);
    let mut out: Vec<char> = Vec::new();
    let mut i: usize = 0;
    while i < s.len()
        invariant
            i <= s.len(),
            s@ == name@,
            out@ == identity(s@.take(i as int)),
        decreases s.len() - i,
    {
        if is_alphanumeric(s[i]) {
            let lower = chars_of(lower_of(s[i]).as_str());
            append(&mut out, &lower);
        }
        assert(s@.take(i + 1).drop_last() =~= s@.take(i as int));
        i += 1;
    }
    assert(s@.take(s.len() as int) =~= s@);
    out
}

/// A letter or digit of an ASCII name is kept, a capital lowered, and anything
/// else dropped: adding the character `c` to a name adds to its identity `c`
/// itself for a lowercase letter or a digit, `c` lowered for a capital, and
/// nothing for any other ASCII character.
pub proof fn an_ascii_name_keeps_its_letters_and_digits(s: Seq<char>, c: char)
    requires
        (c as int) < 128,
    ensures
        identity(s.push(c)) == identity(s) + if ('a' <= c && c <= 'z') || ('0' <= c && c <= '9') {
            seq![c]
        } else if 'A' <= c && c <= 'Z' {
            seq![((c as int) + 32) as char]
        } else {
            Seq::<char>::empty()
        },
{
    assert(s.push(c).drop_last() =~= s);
    assert(s.push(c).last() == c);
}

/// The ASCII digits of `s`, in order.
pub open spec fn digits_of(s: Seq<char>) -> Seq<char>
    decreases s.len(),
{
    if s.len() == 0 {
        Seq::empty()
    } else {
        digits_of(s.drop_last()) + if '0' <= s.last() && s.last() <= '9' {
            seq![s.last()]
        } else {
            Seq::<char>::empty()
        }
    }
}

proof fn lemma_identity_digits(s: Seq<char>)
    requires
        forall|i: int| 0 <= i < s.len() ==> (#[trigger] s[i] as int) < 128,
    ensures
        digits_of(identity(s)) == digits_of(s),
    decreases s.len(),
{
    if s.len() > 0 {
        let f = s.drop_last();
        assert forall|i: int| 0 <= i < f.len() implies (#[trigger] f[i] as int) < 128 by {
            assert(f[i] == s[i]);
        }
        lemma_identity_digits(f);
        let c = s.last();
        assert((s[s.len() - 1] as int) < 128);
        let id = identity(f);
        if alnum(c) {
            let p = ascii_lower(c);
            assert(identity(s) =~= id.push(p));
            assert(id.push(p).drop_last() =~= id);
        } else {
            assert(identity(s) =~= id);
        }
    }
}

/// Names whose digits differ are different names, however alike their letters:
/// two ASCII names with other digits, or digits in another order, never have the
/// same identity, so neither stands for the other in the catalog.
pub proof fn names_with_other_digits_are_other_names(a: Seq<char>, b: Seq<char>)
    requires
        forall|i: int| 0 <= i < a.len() ==> (#[trigger] a[i] as int) < 128,
        forall|i: int| 0 <= i < b.len() ==> (#[trigger] b[i] as int) < 128,
        digits_of(a) != digits_of(b),
    ensures
        identity(a) != identity(b),
{
    lemma_identity_digits(a);
    lemma_identity_digits(b);
}

/// Where the first character that is not a letter or digit stands, or the length.
pub open spec fn word_end(s: Seq<char>) -> int
    decreases s.len(),
{
    if s.len() == 0 || !alnum(s[0]) {
        0
    } else {
        1 + word_end(s.drop_first())
    }
}

proof fn lemma_word_end(s: Seq<char>, k: int)
    requires
        0 <= k <= s.len(),
        forall|j: int| 0 <= j < k ==> alnum(#[trigger] s[j]),
        k == s.len() || !alnum(s[k]),
    ensures
        word_end(s) == k,
    decreases k,
{
    if k > 0 {
        assert forall|j: int| 0 <= j < k - 1 implies alnum(#[trigger] s.drop_first()[j]) by {
            assert(s.drop_first()[j] == s[j + 1]);
        }
        lemma_word_end(s.drop_first(), k - 1);
    }
}

/// The words of `s`: its runs of letters and digits, lowercased.
pub open spec fn words(s: Seq<char>) -> Seq<Seq<char>>
    decreases s.len(),
{
    let k = word_end(s);
    if k >= s.len() {
        if s.len() > 0 {
            seq![lowercase(s)]
        } else {
            Seq::empty()
        }
    } else {
        let w = s.take(k);
        proof {
            lemma_word_end_bounds(s);
        }
        (if k > 0 { seq![lowercase(w)] } else { Seq::empty() }) + words(s.skip(k + 1))
    }
}

pub proof fn lemma_word_end_bounds(s: Seq<char>)
    ensures
        0 <= word_end(s) <= s.len(),
    decreases s.len(),
{
    if s.len() > 0 && alnum(s[0]) {
        lemma_word_end_bounds(s.drop_first());
    }
}

/// The words of a name, lowercased.
pub fn catalog_words(name: &str) -> (r: Vec<Vec<char>>)
    ensures
        views(r@) == words(name@),
{
    let s = chars_of(name);
    let mut out: Vec<Vec<char>> = Vec::new();
    let mut pos: usize = 0;
    assert(s@.skip(0) =~= s@);
    while pos < s.len()
        invariant
            pos <= s.len(),
            s@ == name@,
            words(s@) == views(out@) + words(s@.skip(pos as int)),
        decreases s.len() - pos,
    {
        let mut end = pos;
        while end < s.len() && is_alphanumeric(s[end])
            invariant
                pos <= end <= s.len(),
                forall|j: int| pos <= j < end ==> alnum(#[trigger] s@[j]),
            decreases s.len() - end,
        {
            end += 1;
        }
        let ghost rest = s@.skip(pos as int);
        proof {
            assert forall|j: int| 0 <= j < end - pos implies alnum(#[trigger] rest[j]) by {
                assert(rest[j] == s@[pos + j]);
            }
            if end < s.len() {
                assert(rest[end - pos] == s@[end as int]);
            }
            lemma_word_end(rest, end - pos);
        }
        let ghost before = views(out@);
        if end > pos {
            let w = slice_vec(&s, pos, end);
            let lw = chars_of(to_lowercase(string_of(&w).as_str()).as_str());
            proof {
                assert(rest.take(end - pos) =~= w@);
            }
            out.push(lw);
            proof {
                assert(views(out@) =~= before.push(lowercase(w@)));
            }
        }
        if end == s.len() {
            proof {
                assert(rest.take(end - pos) =~= rest);
                assert(s@.skip(s.len() as int) =~= Seq::<char>::empty());
                assert(views(out@) + words(s@.skip(s.len() as int)) =~= views(out@));
                if end > pos {
                    assert(views(out@) =~= before + seq![lowercase(rest)]);
                } else {
                    assert(rest.len() == 0);
                }
            }
            pos = end;
        } else {
            proof {
                assert(rest.skip(end - pos + 1) =~= s@.skip(end + 1));
                let head = if end - pos > 0 { seq![lowercase(rest.take(end - pos))] } else { Seq::<Seq<char>>::empty() };
                assert(views(out@) =~= before + head);
                assert(before + (head + words(s@.skip(end + 1))) =~= views(out@) + words(s@.skip(end + 1)));
            }
            pos = end + 1;
        }
    }
    assert(words(s@.skip(s.len() as int)) =~= Seq::<Seq<char>>::empty()) by {
        assert(s@.skip(s.len() as int) =~= Seq::<char>::empty());
    }
    assert(views(out@) + Seq::<Seq<char>>::empty() =~= views(out@));
    out
}

/// Whether a short local title and a catalog title agree on their first words:
/// both have at least two, the shorter is a prefix of the longer, and they differ
/// by at most two words.
pub open spec fn shortened_match_spec(local: Seq<char>, catalog: Seq<char>) -> bool {
    let l = words(local);
    let c = words(catalog);
    let shorter = if l.len() <= c.len() { l.len() } else { c.len() };
    let diff = if l.len() >= c.len() { l.len() - c.len() } else { c.len() - l.len() };
    shorter >= 2 && l.take(shorter as int) == c.take(shorter as int) && diff <= 2
}


/// Whether a short local title matches a catalog title.
pub fn shortened_catalog_title_matches(local: &str, catalog: &str) -> (b: bool)
    ensures
        b == shortened_match_spec(local@, catalog@),
{
    let l = catalog_words(local);
    let c = catalog_words(catalog);
    let shorter = if l.len() <= c.len() { l.len() } else { c.len() };
    let diff = if l.len() >= c.len() { l.len() - c.len() } else { c.len() - l.len() };
    if shorter < 2 || diff > 2 {
        return false;
    }
    let mut i: usize = 0;
    while i < shorter
        invariant
            i <= shorter,
            shorter <= l.len(),
            shorter <= c.len(),
            views(l@) == words(local@),
            views(c@) == words(catalog@),
            shorter == if l.len() <= c.len() { l.len() } else { c.len() },
            forall|j: int| 0 <= j < i ==> l@[j]@ == c@[j]@,
        decreases shorter - i,
    {
        if !crate::text::same_chars(&l[i], &c[i]) {
            proof {
                let lw = views(l@).take(shorter as int);
                let cw = views(c@).take(shorter as int);
                assert(lw[i as int] == l@[i as int]@);
                assert(cw[i as int] == c@[i as int]@);
                assert(lw != cw);
            }
            return false;
        }
        i += 1;
    }
    assert(views(l@).take(shorter as int) =~= views(c@).take(shorter as int));
    true
}

/// Entry `i` has the letters and digits of `name`.
pub open spec fn exact_at(name: Seq<char>, catalog: Seq<Entry>, i: int) -> bool {
    0 <= i < catalog.len() && identity(catalog[i].name@) == identity(name)
}

/// Entry `i` is the first that has the letters and digits of `name`.
pub open spec fn first_exact(name: Seq<char>, catalog: Seq<Entry>, i: int) -> bool {
    exact_at(name, catalog, i) && forall|j: int| 0 <= j < i ==> !#[trigger] exact_at(name, catalog, j)
}

/// `name` shortens the title of entry `i`.
pub open spec fn short_at(name: Seq<char>, catalog: Seq<Entry>, i: int) -> bool {
    0 <= i < catalog.len() && shortened_match_spec(name, catalog[i].name@)
}

/// `name` shortens the title of entry `i` and of no other.
pub open spec fn only_short(name: Seq<char>, catalog: Seq<Entry>, i: int) -> bool {
    short_at(name, catalog, i) && forall|j: int| j != i ==> !#[trigger] short_at(name, catalog, j)
}

/// Which catalog entry a library map is: the first whose letters and digits match
/// its name, else the only one whose title it shortens, else none.
pub open spec fn match_spec(name: Seq<char>, catalog: Seq<Entry>) -> Option<int> {
    if exists|i: int| #[trigger] first_exact(name, catalog, i) {
        Some(choose|i: int| #[trigger] first_exact(name, catalog, i))
    } else if exists|i: int| #[trigger] only_short(name, catalog, i) {
        Some(choose|i: int| #[trigger] only_short(name, catalog, i))
    } else {
        None
    }
}

proof fn lemma_first_exact_unique(name: Seq<char>, catalog: Seq<Entry>, a: int, b: int)
    requires
        first_exact(name, catalog, a),
        first_exact(name, catalog, b),
    ensures
        a == b,
{
    if a < b {
        assert(!exact_at(name, catalog, a));
    } else if b < a {
        assert(!exact_at(name, catalog, b));
    }
}

proof fn lemma_no_first_exact(name: Seq<char>, catalog: Seq<Entry>)
    requires
        forall|j: int| 0 <= j < catalog.len() ==> !#[trigger] exact_at(name, catalog, j),
    ensures
        !exists|i: int| #[trigger] first_exact(name, catalog, i),
{
}

/// The first entry at or after `from` whose title `name` shortens, if any.
fn next_short(name: &str, catalog: &[Entry], from: usize) -> (r: Option<usize>)
    requires
        from <= catalog.len(),
    ensures
        match r {
            Some(k) => from <= k < catalog.len() && short_at(name@, catalog@, k as int)
                && forall|j: int| from <= j < k ==> !#[trigger] short_at(name@, catalog@, j),
            None => forall|j: int| from <= j < catalog.len() ==> !#[trigger] short_at(name@, catalog@, j),
        },
{
    let mut k = from;
    while k < catalog.len()
        invariant
            from <= k <= catalog.len(),
            forall|j: int| from <= j < k ==> !#[trigger] short_at(name@, catalog@, j),
        decreases catalog.len() - k,
    {
        if shortened_catalog_title_matches(name, catalog[k].name.as_str()) {
            return Some(k);
        }
        k += 1;
    }
    None
}

/// The catalog entry a library map is, if it can be told.
pub fn matching_catalog_entry(name: &str, catalog: &[Entry]) -> (r: Option<usize>)
    ensures
        match r {
            Some(i) => match_spec(name@, catalog@) == Some(i as int),
            None => match_spec(name@, catalog@) is None,
        },
{
    let id = catalog_identity(name);
    let mut i: usize = 0;
    while i < catalog.len()
        invariant
            i <= catalog.len(),
            id@ == identity(name@),
            forall|j: int| 0 <= j < i ==> !#[trigger] exact_at(name@, catalog@, j),
        decreases catalog.len() - i,
    {
        let other = catalog_identity(catalog[i].name.as_str());
        if crate::text::same_chars(&other, &id) {
            proof {
                assert(first_exact(name@, catalog@, i as int));
                let c = choose|c: int| #[trigger] first_exact(name@, catalog@, c);
                lemma_first_exact_unique(name@, catalog@, c, i as int);
            }
            return Some(i);
        }
        i += 1;
    }
    proof {
        lemma_no_first_exact(name@, catalog@);
    }
    let first = next_short(name, catalog, 0);
    match first {
        None => {
            proof {
                assert forall|c: int| !#[trigger] only_short(name@, catalog@, c) by {
                    if only_short(name@, catalog@, c) {
                        assert(short_at(name@, catalog@, c));
                    }
                }
            }
            None
        },
        Some(k) => {
            let second = next_short(name, catalog, k + 1);
            match second {
                Some(m) => {
                    proof {
                        assert forall|c: int| !#[trigger] only_short(name@, catalog@, c) by {
                            if only_short(name@, catalog@, c) {
                                if c == k as int {
                                    assert(short_at(name@, catalog@, m as int));
                                } else {
                                    assert(short_at(name@, catalog@, k as int));
                                }
                            }
                        }
                    }
                    None
                },
                None => {
                    proof {
                        assert forall|j: int| j != k ==> !#[trigger] short_at(name@, catalog@, j) by {
                            if j != k && 0 <= j < catalog@.len() && j < k {
                                assert(!short_at(name@, catalog@, j));
                            }
                        }
                        assert(only_short(name@, catalog@, k as int));
                        let c = choose|c: int| #[trigger] only_short(name@, catalog@, c);
                        if c != k as int {
                            assert(!short_at(name@, catalog@, c));
                        }
                    }
                    Some(k)
                },
            }
        },
    }
}

/// `old` if there is one, else the plain text of `raw`, if there is that.
pub open spec fn fill(old: Option<String>, raw: Option<String>) -> Option<Seq<char>> {
    match old {
        Some(o) => Some(o@),
        None => match raw {
            Some(r) => Some(plain_text_spec(r@)),
            None => None,
        },
    }
}

pub open spec fn opt_view(o: Option<String>) -> Option<Seq<char>> {
    match o {
        Some(s) => Some(s@),
        None => None,
    }
}

fn plain_of(raw: &Option<String>) -> (r: Option<String>)
    ensures
        opt_view(r) == match raw {
            Some(x) => Some(plain_text_spec(x@)),
            None => None,
        },
{
    match raw {
        Some(x) => Some(plain_text(x.as_str())),
        None => None,
    }
}

/// `after` is `before` with what it lacked filled from the catalog entry it
/// is, if any: the author is Lethamyr, and the blurb and description are the
/// entry's as plain text. What `before` has is kept.
pub open spec fn reconciled(before: LocalMap, after: LocalMap, catalog: Seq<Entry>) -> bool {
    &&& after.name == before.name
    &&& after.folder == before.folder
    &&& after.primary == before.primary
    &&& after.extras == before.extras
    &&& after.image == before.image
    &&& after.settings == before.settings
    &&& after.settings_checked == before.settings_checked
    &&& after.source == before.source
    &&& after.bytes == before.bytes
    &&& after.saved == before.saved
    &&& match match_spec(before.name@, catalog) {
        Some(e) => {
            &&& opt_view(after.author) == match before.author {
                Some(a) => Some(a@),
                None => Some("Lethamyr"@),
            }
            &&& opt_view(after.blurb) == fill(before.blurb, catalog[e].description_short)
            &&& opt_view(after.description) == fill(before.description, catalog[e].description)
        },
        None => {
            &&& after.author == before.author
            &&& after.blurb == before.blurb
            &&& after.description == before.description
        },
    }
}

/// One map with what it lacks filled from the catalog.
fn reconcile_one(map: LocalMap, catalog: &[Entry]) -> (r: LocalMap)
    ensures
        reconciled(map, r, catalog@),
{
    match matching_catalog_entry(map.name.as_str(), catalog) {
        None => map,
        Some(e) => {
            let author = match map.author {
                Some(a) => Some(a),
                None => Some("Lethamyr".to_string()),
            };
            proof {
                reveal_strlit("Lethamyr");
            }
            let blurb = match map.blurb {
                Some(b) => Some(b),
                None => plain_of(&catalog[e].description_short),
            };
            let description = match map.description {
                Some(d) => Some(d),
                None => plain_of(&catalog[e].description),
            };
            LocalMap { author, blurb, description, ..map }
        },
    }
}

/// Fills what each library map lacks from the catalog entry it is: the author is
/// Lethamyr, and the blurb and description come from the entry as plain text.
/// What a map already has is never replaced; a map that matches no entry is left alone.
pub fn reconcile_catalog_metadata(library: &mut Vec<LocalMap>, catalog: &[Entry])
    ensures
        final(library)@.len() == old(library)@.len(),
        forall|i: int| 0 <= i < old(library)@.len() ==> reconciled(
            #[trigger] old(library)@[i],
            final(library)@[i],
            catalog@,
        ),
{
    let mut rest: Vec<LocalMap> = Vec::new();
    std::mem::swap(&mut rest, library);
    let ghost start = rest@;
    let n: usize = rest.len();
    let mut i: usize = 0;
    while i < n
        invariant
            n == start.len(),
            i <= n,
            rest@ == start.skip(i as int),
            library@.len() == i,
            forall|k: int| 0 <= k < i ==> reconciled(#[trigger] start[k], library@[k], catalog@),
        decreases n - i,
    {
        assert(rest@[0] == start[i as int]);
        let map = rest.remove(0);
        assert(rest@ =~= start.skip(i + 1));
        let updated = reconcile_one(map, catalog);
        library.push(updated);
        i += 1;
    }
}


/// The key a catalog map's star is kept under, in full.
pub open spec fn catalog_key_spec(name: Seq<char>) -> Seq<char> {
    "catalog:"@ + lowercase(trim(name))
}

/// A catalog map called `name` was downloaded. When it was starred, its star
/// moves to the map it became in the library (`local_key`, when that is known).
/// Whether the star moved is returned.
pub fn carry_star(config: &mut Config, name: &str, local_key: Option<&str>) -> (moved: bool)
    requires
        old(config).wf(),
    ensures
        final(config).wf(),
        moved == old(config).stars().contains(catalog_key_spec(name@)),
        !moved ==> final(config).stars() == old(config).stars(),
        moved ==> final(config).stars() == match local_key {
            Some(k) => old(config).stars().remove(catalog_key_spec(name@)).insert(k@),
            None => old(config).stars().remove(catalog_key_spec(name@)),
        },
        forall|k: Seq<char>| final(config).record_at(k) == old(config).record_at(k),
        final(config).game_dir == old(config).game_dir,
        final(config).library_dir == old(config).library_dir,
{
    let key = catalog_star_key(name);
    if !config.is_starred(key.as_str()) {
        return false;
    }
    config.set_star(key.as_str(), false);
    match local_key {
        Some(k) => config.set_star(k, true),
        None => {},
    }
    true
}
} // verus!

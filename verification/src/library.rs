use vstd::prelude::*;

use crate::install::{dup_opt, dup_str};
use crate::fetch::maps_among;
use crate::files::{is_image, is_image_spec, is_map, is_map_spec};
use crate::json::{json_text, json_text_field};
use crate::matching::opt_view;
use crate::paths::{file_name, file_name_of, file_stem, is_sep};
use crate::order::{arrange, key_view, key_views, stable_order, stably_sorted, SortKey};
use crate::text::{lex_lt, lowercase};
use crate::text::{chars_of, split, split_on, string_of, views, trim, trim_bounds};

verus! {

/// The suffix that marks a map's level package.
pub const PERSISTENT_SUFFIX: &'static str = "_P";

/// The file a map's details are kept in, inside its folder.
pub const INFO_FILE: &'static str = "info.json";

/// Why a map could not be deleted.
#[derive(Debug, Clone, PartialEq, Eq)]
pub enum Error {
    LibraryUnreadable(String),
    IsLibraryRoot,
    OutsideLibrary(String),
    Delete(String, String),
}

impl Error {
    /// The sentence shown for this error.
    pub fn message(&self) -> (s: String)
        ensures
            match self {
                Error::LibraryUnreadable(e) => s@ == "library folder unreadable: "@ + e@,
                Error::IsLibraryRoot => s@ == "refusing to delete the library folder itself"@,
                Error::OutsideLibrary(name) => s@ == name@ + " is outside the library"@,
                Error::Delete(name, e) => s@ == name@ + ": "@ + e@,
            },
    {
        let mut s = String::new();
        match self {
            Error::LibraryUnreadable(e) => {
                crate::text::push_str(&mut s, "library folder unreadable: ");
                crate::text::push_str(&mut s, e.as_str());
            },
            Error::IsLibraryRoot => {
                crate::text::push_str(&mut s, "refusing to delete the library folder itself");
            },
            Error::OutsideLibrary(name) => {
                crate::text::push_str(&mut s, name.as_str());
                crate::text::push_str(&mut s, " is outside the library");
            },
            Error::Delete(name, e) => {
                crate::text::push_str(&mut s, name.as_str());
                crate::text::push_str(&mut s, ": ");
                crate::text::push_str(&mut s, e.as_str());
            },
        }
        s
    }
}

/// A map in the library: its name, where it lives, its packages and what is known of it.
/// `saved` is when it arrived, in nanoseconds since the Unix epoch.
#[derive(Debug, Clone, PartialEq, Eq)]
pub struct LocalMap {
    pub name: String,
    pub folder: Option<String>,
    pub primary: String,
    pub extras: Vec<String>,
    pub image: Option<String>,
    pub author: Option<String>,
    pub description: Option<String>,
    pub blurb: Option<String>,
    pub settings: Option<String>,
    pub settings_checked: bool,
    pub source: Option<String>,
    pub bytes: u64,
    pub saved: Option<u128>,
}

impl Default for LocalMap {
    fn default() -> (m: LocalMap)
        ensures
            m.name@ == Seq::<char>::empty(),
            m.folder is None,
            m.primary@ == Seq::<char>::empty(),
            m.extras@.len() == 0,
            m.image is None,
            m.author is None,
            m.description is None,
            m.blurb is None,
            m.settings is None,
            !m.settings_checked,
            m.source is None,
            m.bytes == 0,
            m.saved is None,
    {
        LocalMap {
            name: String::new(),
            folder: None,
            primary: String::new(),
            extras: Vec::new(),
            image: None,
            author: None,
            description: None,
            blurb: None,
            settings: None,
            settings_checked: false,
            source: None,
            bytes: 0,
            saved: None,
        }
    }
}

impl LocalMap {
    /// Where the map lives: its folder, or its one file when it has no folder.
    pub open spec fn home_spec(&self) -> Seq<char> {
        match self.folder {
            Some(f) => f@,
            None => self.primary@,
        }
    }

    /// How many packages the map has.
    pub fn file_count(&self) -> (n: usize)
        requires
            self.extras@.len() < usize::MAX,
        ensures
            n == 1 + self.extras@.len(),
    {
        1 + self.extras.len()
    }

    /// Where the map lives, which is what deleting it would take.
    pub fn home(&self) -> (h: &str)
        ensures
            h@ == self.home_spec(),
    {
        match &self.folder {
            Some(f) => f.as_str(),
            None => self.primary.as_str(),
        }
    }

    /// The key the map is known by: where it lives.
    pub fn key(&self) -> (k: String)
        ensures
            k@ == self.home_spec(),
    {
        string_of(&chars_of(self.home()))
    }
}

/// A file or folder that was passed over, and why.
#[derive(Debug, Clone, PartialEq, Eq)]
pub struct Skipped {
    pub path: String,
    pub reason: String,
}

/// What reading the library found.
#[derive(Debug, Default)]
pub struct Scan {
    pub maps: Vec<LocalMap>,
    pub skipped: Vec<Skipped>,
}

/// Whether `stem` ends in `_P` in either case.
pub open spec fn has_persistent_suffix(stem: Seq<char>) -> bool {
    stem.len() >= 2 && stem[stem.len() - 2] == '_' && (stem.last() == 'P' || stem.last() == 'p')
}

/// `stem` without a final `_P` in either case.
pub open spec fn strip_suffix_spec(stem: Seq<char>) -> Seq<char> {
    if has_persistent_suffix(stem) {
        stem.take(stem.len() - 2)
    } else {
        stem
    }
}

/// `stem` without the `_P` that marks a level package, in either case.
pub fn strip_persistent_suffix(stem: &str) -> (r: String)
    ensures
        r@ == strip_suffix_spec(stem@),
{
    let s = chars_of(stem);
    let n = s.len();
    if n >= 2 && s[n - 2] == '_' && (s[n - 1] == 'P' || s[n - 1] == 'p') {
        string_of(&crate::text::slice_vec(&s, 0, n - 2))
    } else {
        string_of(&s)
    }
}

/// Whether `path` names a level package: its stem ends in `_P`.
pub open spec fn is_persistent_spec(path: Seq<char>) -> bool {
    match file_stem(path) {
        Some(stem) => has_persistent_suffix(stem),
        None => false,
    }
}

/// Whether `path` names a level package.
pub fn is_persistent(path: &str) -> (b: bool)
    ensures
        b == is_persistent_spec(path@),
{
    let p = chars_of(path);
    match crate::paths::file_stem_of(&p) {
        Some(stem) => {
            let n = stem.len();
            n >= 2 && stem[n - 2] == '_' && (stem[n - 1] == 'P' || stem[n - 1] == 'p')
        },
        None => false,
    }
}

/// A package is a level exactly when taking the level suffix off its stem
/// changes the stem: the suffix is matched and stripped the same way, and
/// stripping takes nothing but that suffix.
pub proof fn the_level_suffix_is_matched_and_stripped_the_same_way(path: Seq<char>)
    ensures
        is_persistent_spec(path) <==> (file_stem(path) matches Some(stem) && strip_suffix_spec(stem) != stem),
        file_stem(path) matches Some(stem) ==> stem == strip_suffix_spec(stem) + stem.skip(strip_suffix_spec(stem).len() as int),
{
    match file_stem(path) {
        Some(stem) => {
            if has_persistent_suffix(stem) {
                assert(strip_suffix_spec(stem).len() < stem.len());
            }
            assert(stem =~= strip_suffix_spec(stem) + stem.skip(strip_suffix_spec(stem).len() as int));
        },
        None => {},
    }
}

/// Whether any of `maps` is a level package.
pub open spec fn any_persistent(maps: Seq<String>) -> bool {
    exists|i: int| 0 <= i < maps.len() && is_persistent_spec(#[trigger] maps[i]@)
}

/// Whether package `i` is among those the level is chosen from: the level
/// packages when there are any, else all of them.
pub open spec fn in_pool(maps: Seq<String>, i: int) -> bool {
    0 <= i < maps.len() && (any_persistent(maps) ==> is_persistent_spec(maps[i]@))
}

/// Which package is the level: the biggest of the pool, the last of them on a tie.
pub open spec fn is_level(maps: Seq<String>, sizes: Seq<u64>, i: int) -> bool {
    &&& in_pool(maps, i)
    &&& forall|j: int| #[trigger] in_pool(maps, j) ==> sizes[j] <= sizes[i]
    &&& forall|j: int| i < j && #[trigger] in_pool(maps, j) ==> sizes[j] < sizes[i]
}

/// Picks the level among a map's packages, given their sizes.
pub fn pick_level(maps: &[String], sizes: &[u64]) -> (r: Option<usize>)
    requires
        maps.len() == sizes.len(),
    ensures
        match r {
            Some(i) => is_level(maps@, sizes@, i as int),
            None => maps@.len() == 0,
        },
{
    let mut any = false;
    let mut k: usize = 0;
    while k < maps.len()
        invariant
            k <= maps.len(),
            any == exists|i: int| 0 <= i < k && is_persistent_spec(#[trigger] maps@[i]@),
        decreases maps.len() - k,
    {
        if is_persistent(maps[k].as_str()) {
            any = true;
        }
        k += 1;
    }
    assert(any == any_persistent(maps@));
    let mut best: Option<usize> = None;
    let mut i: usize = 0;
    while i < maps.len()
        invariant
            i <= maps.len(),
            maps.len() == sizes.len(),
            any == any_persistent(maps@),
            match best {
                Some(b) => b < i && in_pool(maps@, b as int) && (forall|j: int| j < i && #[trigger] in_pool(maps@, j) ==> sizes@[j] <= sizes@[b as int])
                    && (forall|j: int| b < j < i && #[trigger] in_pool(maps@, j) ==> sizes@[j] < sizes@[b as int]),
                None => forall|j: int| j < i ==> !#[trigger] in_pool(maps@, j),
            },
        decreases maps.len() - i,
    {
        let pooled = !any || is_persistent(maps[i].as_str());
        assert(pooled == in_pool(maps@, i as int));
        if pooled {
            match best {
                Some(b) => {
                    if sizes[i] >= sizes[b] {
                        best = Some(i);
                    }
                },
                None => {
                    best = Some(i);
                },
            }
        }
        i += 1;
    }
    proof {
        if best is None && maps@.len() > 0 {
            if any {
                let w = choose|w: int| 0 <= w < maps@.len() && is_persistent_spec(#[trigger] maps@[w]@);
                assert(in_pool(maps@, w));
            } else {
                assert(in_pool(maps@, 0));
            }
        }
    }
    best
}

/// What a map's info file holds.
#[derive(Debug, Default, Clone)]
pub struct Info {
    pub name: Option<String>,
    pub author: Option<String>,
    pub description: Option<String>,
    pub blurb: Option<String>,
    pub settings: Option<String>,
    pub settings_checked: bool,
    pub source: Option<String>,
}

/// `field`, or `older` when `field` is missing.
pub open spec fn or_older(field: Option<String>, older: Option<String>) -> Option<String> {
    match field {
        Some(f) => Some(f),
        None => older,
    }
}

/// `field`, dropped when it is only whitespace.
pub open spec fn unless_blank(field: Option<String>) -> Option<String> {
    match field {
        Some(t) => if trim(t@).len() == 0 {
            None
        } else {
            Some(t)
        },
        None => None,
    }
}

fn drop_blank(field: Option<String>) -> (r: Option<String>)
    ensures
        r == unless_blank(field),
{
    match field {
        Some(t) => {
            let c = chars_of(t.as_str());
            let (a, b) = trim_bounds(&c);
            if a == b {
                None
            } else {
                Some(t)
            }
        },
        None => None,
    }
}

/// What an info file says once the keys of older files fill the gaps: `title`
/// for the name, `desc` for the description and the blurb, `url` for the page;
/// any field that is only whitespace is dropped.
pub fn settle_info(info: Info, title: Option<String>, desc: Option<String>, url: Option<String>) -> (r: Info)
    ensures
        r.name == unless_blank(or_older(info.name, title)),
        r.author == unless_blank(info.author),
        r.description == unless_blank(or_older(info.description, desc)),
        r.blurb == unless_blank(or_older(info.blurb, desc)),
        r.settings == unless_blank(info.settings),
        r.source == unless_blank(or_older(info.source, url)),
        r.settings_checked == info.settings_checked,
{
    let name = match info.name {
        Some(n) => Some(n),
        None => title,
    };
    let description = match info.description {
        Some(d) => Some(d),
        None => dup_opt(&desc),
    };
    let blurb = match info.blurb {
        Some(b) => Some(b),
        None => desc,
    };
    let source = match info.source {
        Some(s) => Some(s),
        None => url,
    };
    Info {
        name: drop_blank(name),
        author: drop_blank(info.author),
        description: drop_blank(description),
        blurb: drop_blank(blurb),
        settings: drop_blank(info.settings),
        settings_checked: info.settings_checked,
        source: drop_blank(source),
    }
}

/// `t`, dropped when it is only whitespace.
pub open spec fn blank_dropped(o: Option<Seq<char>>) -> Option<Seq<char>> {
    match o {
        Some(t) => if trim(t).len() == 0 {
            None
        } else {
            Some(t)
        },
        None => None,
    }
}

/// `a`, or `b` when `a` is missing.
pub open spec fn either(a: Option<Seq<char>>, b: Option<Seq<char>>) -> Option<Seq<char>> {
    match a {
        Some(x) => Some(x),
        None => b,
    }
}

proof fn lemma_settled_view(a: Option<String>, b: Option<String>)
    ensures
        opt_view(unless_blank(or_older(a, b))) == blank_dropped(either(opt_view(a), opt_view(b))),
        opt_view(unless_blank(a)) == blank_dropped(opt_view(a)),
{
}

/// What the info file `raw` holds: what `serde` made of it (`parsed`, none when it
/// did not read), with the keys of older files (`title`, `desc`, `url`) filling
/// the gaps and fields that are only whitespace dropped.
pub fn info_from(raw: &str, parsed: Option<Info>) -> (r: Info)
    ensures
        ({
            let base = match parsed {
                Some(i) => i,
                None => Info { name: None, author: None, description: None, blurb: None, settings: None, settings_checked: false, source: None },
            };
            let title = json_text(raw@, "title"@);
            let desc = json_text(raw@, "desc"@);
            let url = json_text(raw@, "url"@);
            &&& opt_view(r.name) == blank_dropped(either(opt_view(base.name), title))
            &&& opt_view(r.author) == blank_dropped(opt_view(base.author))
            &&& opt_view(r.description) == blank_dropped(either(opt_view(base.description), desc))
            &&& opt_view(r.blurb) == blank_dropped(either(opt_view(base.blurb), desc))
            &&& opt_view(r.settings) == blank_dropped(opt_view(base.settings))
            &&& opt_view(r.source) == blank_dropped(either(opt_view(base.source), url))
            &&& r.settings_checked == base.settings_checked
        }),
{
    let base = match parsed {
        Some(i) => i,
        None => Info { name: None, author: None, description: None, blurb: None, settings: None, settings_checked: false, source: None },
    };
    let ghost b = base;
    let title = json_text_field(raw, "title");
    let desc = json_text_field(raw, "desc");
    let url = json_text_field(raw, "url");
    let ghost t = title;
    let ghost d = desc;
    let ghost u = url;
    let r = settle_info(base, title, desc, url);
    proof {
        lemma_settled_view(b.name, t);
        lemma_settled_view(b.description, d);
        lemma_settled_view(b.blurb, d);
        lemma_settled_view(b.source, u);
        lemma_settled_view(b.author, None);
        lemma_settled_view(b.settings, None);
    }
    r
}

/// Whether `path` is a map's info file.
pub fn is_info_file(path: &str) -> (b: bool)
    ensures
        b == (file_name(path@) == Some("info.json"@)),
{
    match file_name_of(&chars_of(path)) {
        Some(n) => crate::text::same_chars(&n, &chars_of(INFO_FILE)),
        None => false,
    }
}

/// The image files among `files`, in order.
pub open spec fn images_among(files: Seq<String>) -> Seq<String>
    decreases files.len(),
{
    if files.len() == 0 {
        Seq::empty()
    } else if is_image_spec(files.last()@) {
        images_among(files.drop_last()).push(files.last())
    } else {
        images_among(files.drop_last())
    }
}

/// The sum of `sizes`.
pub open spec fn sum_of(sizes: Seq<u64>) -> int
    decreases sizes.len(),
{
    if sizes.len() == 0 {
        0
    } else {
        sum_of(sizes.drop_last()) + sizes.last()
    }
}

/// The map a folder holds, from the files in it (`sizes[i]` is the size of
/// `files[i]`), its info and when it arrived: none when it holds no map file.
/// The level names the primary package and the other map files are its extras;
/// the first picture in name order is its artwork; it is called what its info
/// says, else after the folder.
pub fn assemble_map(dir: &str, files: &[String], sizes: &[u64], info: Info, saved: Option<u128>) -> (r: Option<LocalMap>)
    requires
        files@.len() == sizes@.len(),
    ensures
        ({
            let maps = maps_among(files@, sizes@);
            let images = images_among(files@);
            match r {
                None => maps.0.len() == 0,
                Some(m) => {
                    &&& maps.0.len() > 0
                    &&& exists|l: int| #[trigger] is_level(maps.0, maps.1, l) && m.primary == maps.0[l] && m.extras@ == maps.0.remove(l)
                    &&& match m.image {
                        None => images.len() == 0,
                        Some(im) => images.contains(im) && forall|j: int| 0 <= j < images.len() ==> !lex_lt(#[trigger] images[j]@, im@),
                    }
                    &&& m.name@ == match info.name {
                        Some(n) => n@,
                        None => match file_name(dir@) {
                            Some(f) => f,
                            None => dir@,
                        },
                    }
                    &&& m.folder matches Some(f) && f@ == dir@
                    &&& m.author == info.author
                    &&& m.description == info.description
                    &&& m.blurb == info.blurb
                    &&& m.settings == info.settings
                    &&& m.settings_checked == info.settings_checked
                    &&& m.source == info.source
                    &&& m.bytes == if sum_of(maps.1) <= u64::MAX { sum_of(maps.1) } else { u64::MAX as int }
                    &&& m.saved == saved
                },
            }
        }),
{
    let mut maps: Vec<String> = Vec::new();
    let mut map_sizes: Vec<u64> = Vec::new();
    let mut images: Vec<String> = Vec::new();
    let mut i: usize = 0;
    while i < files.len()
        invariant
            i <= files@.len(),
            files@.len() == sizes@.len(),
            (maps@, map_sizes@) == maps_among(files@.take(i as int), sizes@.take(i as int)),
            images@ == images_among(files@.take(i as int)),
        decreases files@.len() - i,
    {
        assert(files@.take(i + 1).drop_last() =~= files@.take(i as int));
        assert(sizes@.take(i + 1).drop_last() =~= sizes@.take(i as int));
        if is_map(files[i].as_str()) {
            maps.push(files[i].clone());
            map_sizes.push(sizes[i]);
        } else if is_image(files[i].as_str()) {
            images.push(files[i].clone());
        } else {
        }
        proof {
            if is_map_spec(files@[i as int]@) {
                assert(images_among(files@.take(i + 1)) == images_among(files@.take(i as int))) by {
                    assert(is_image_spec(files@[i as int]@) ==> false) by {
                        crate::files::lemma_map_is_not_image(files@[i as int]@);
                    }
                }
            }
        }
        i += 1;
    }
    assert(files@.take(files@.len() as int) =~= files@);
    assert(sizes@.take(sizes@.len() as int) =~= sizes@);
    proof {
        crate::fetch::lemma_maps_among_len(files@, sizes@);
    }
    let level = match pick_level(&maps, &map_sizes) {
        Some(l) => l,
        None => return None,
    };
    let primary = maps[level].clone();
    let mut extras: Vec<String> = Vec::new();
    let mut bytes: u64 = 0;
    let mut k: usize = 0;
    while k < maps.len()
        invariant
            k <= maps@.len(),
            level < maps@.len(),
            maps@.len() == map_sizes@.len(),
            extras@ == (if k <= level { maps@.take(k as int) } else { maps@.take(k as int).remove(level as int) }),
            bytes == if sum_of(map_sizes@.take(k as int)) <= u64::MAX { sum_of(map_sizes@.take(k as int)) } else { u64::MAX as int },
        decreases maps@.len() - k,
    {
        assert(map_sizes@.take(k + 1).drop_last() =~= map_sizes@.take(k as int));
        bytes = bytes.saturating_add(map_sizes[k]);
        if k != level {
            extras.push(maps[k].clone());
        }
        proof {
            if k < level {
                assert(extras@ =~= maps@.take(k + 1));
            } else if k == level {
                assert(maps@.take(k + 1).remove(level as int) =~= maps@.take(k as int));
            } else {
                assert(extras@ =~= maps@.take(k + 1).remove(level as int));
            }
        }
        k += 1;
    }
    assert(maps@.take(maps@.len() as int) =~= maps@);
    assert(map_sizes@.take(map_sizes@.len() as int) =~= map_sizes@);
    let mut image: Option<String> = None;
    let mut j: usize = 0;
    while j < images.len()
        invariant
            j <= images@.len(),
            match image {
                None => j == 0,
                Some(im) => images@.take(j as int).contains(im) && forall|q: int| 0 <= q < j ==> !lex_lt(#[trigger] images@[q]@, im@),
            },
        decreases images@.len() - j,
    {
        let better = match &image {
            None => true,
            Some(im) => crate::text::lex_less(&chars_of(images[j].as_str()), &chars_of(im.as_str())),
        };
        let ghost cur = image;
        proof {
            match cur {
                Some(im) => {
                    let w = choose|w: int| 0 <= w < images@.take(j as int).len() && images@.take(j as int)[w] == im;
                    assert(images@.take(j + 1)[w] == im);
                    if better {
                        assert forall|q: int| 0 <= q < j + 1 implies !lex_lt(#[trigger] images@[q]@, images@[j as int]@) by {
                            crate::text::lemma_lex_total(images@[j as int]@, images@[q]@);
                            if q < j {
                                if lex_lt(images@[q]@, images@[j as int]@) {
                                    crate::text::lemma_lex_transitive(images@[q]@, images@[j as int]@, im@);
                                }
                            }
                        }
                    } else {
                        crate::text::lemma_lex_total(images@[j as int]@, im@);
                    }
                },
                None => {
                    crate::text::lemma_lex_total(images@[0]@, images@[0]@);
                },
            }
        }
        if better {
            image = Some(images[j].clone());
            assert(images@.take(j + 1)[j as int] == images@[j as int]);
        }
        j += 1;
    }
    assert(images@.take(images@.len() as int) =~= images@);
    let name = match info.name {
        Some(n) => n,
        None => crate::files::name_of(dir),
    };
    let m = LocalMap {
        name,
        folder: Some(dir.to_string()),
        primary,
        extras,
        image,
        author: info.author,
        description: info.description,
        blurb: info.blurb,
        settings: info.settings,
        settings_checked: info.settings_checked,
        source: info.source,
        bytes,
        saved,
    };
    Some(m)
}

/// A map file lying loose in the library: called after its file's stem.
pub fn loose_map(path: &str, bytes: u64, saved: Option<u128>) -> (r: Result<LocalMap, String>)
    ensures
        match r {
            Ok(m) => {
                &&& file_stem(path@) == Some(m.name@)
                &&& m.folder is None
                &&& m.primary@ == path@
                &&& m.extras@.len() == 0
                &&& m.image is None
                &&& m.author is None && m.description is None && m.blurb is None
                &&& m.settings is None && !m.settings_checked && m.source is None
                &&& m.bytes == bytes
                &&& m.saved == saved
            },
            Err(e) => file_stem(path@) is None && e@ == "unnamed file"@,
        },
{
    let name = match crate::files::stem_of(path) {
        Some(n) => n,
        None => return Err("unnamed file".to_string()),
    };
    Ok(LocalMap {
        name,
        folder: None,
        primary: path.to_string(),
        extras: Vec::new(),
        image: None,
        author: None,
        description: None,
        blurb: None,
        settings: None,
        settings_checked: false,
        source: None,
        bytes,
        saved,
    })
}

/// What the library is ordered by: the name, case aside.
pub open spec fn name_keys(maps: Seq<LocalMap>) -> Seq<(Seq<u128>, Seq<char>)> {
    maps.map_values(|m: LocalMap| (Seq::<u128>::empty(), lowercase(m.name@)))
}

/// `r` holds the items of `items` in the order `order` gives their positions.
pub open spec fn arranged<T>(items: Seq<T>, order: Seq<usize>, r: Seq<T>) -> bool {
    r.len() == order.len() && forall|k: int| 0 <= k < r.len() ==> #[trigger] r[k] == items[order[k] as int]
}

/// The maps in name order, case aside; maps of the same name keep their order.
pub fn sort_by_name(maps: Vec<LocalMap>) -> (r: Vec<LocalMap>)
    ensures
        exists|order: Seq<usize>| #[trigger] stably_sorted(name_keys(maps@), order) && arranged(maps@, order, r@),
{
    let mut keys: Vec<SortKey> = Vec::new();
    let mut i: usize = 0;
    while i < maps.len()
        invariant
            i <= maps@.len(),
            keys@.len() == i,
            forall|j: int| 0 <= j < i ==> key_view(#[trigger] keys@[j]) == (Seq::<u128>::empty(), lowercase(maps@[j].name@)),
        decreases maps@.len() - i,
    {
        let text = chars_of(crate::text::to_lowercase(maps[i].name.as_str()).as_str());
        let k = SortKey { nums: Vec::new(), text };
        assert(key_view(k) == (Seq::<u128>::empty(), lowercase(maps@[i as int].name@)));
        keys.push(k);
        i += 1;
    }
    assert(key_views(keys@) =~= name_keys(maps@));
    let order = stable_order(&keys);
    let ghost m0 = maps@;
    let r = arrange(maps, &order);
    assert(stably_sorted(name_keys(m0), order@) && arranged(m0, order@, r@));
    r
}

/// The named components of `p` after the root: empty pieces are dropped, and so is
/// `.` except as the very first component.
pub open spec fn keep_parts(pieces: Seq<Seq<char>>, first: bool) -> Seq<Seq<char>>
    decreases pieces.len(),
{
    if pieces.len() == 0 {
        Seq::empty()
    } else {
        let p = pieces[0];
        let keep = p.len() > 0 && (p != seq!['.'] || first);
        (if keep { seq![p] } else { Seq::empty() }) + keep_parts(pieces.drop_first(), false)
    }
}

/// `p` with each separator written as `/`.
pub open spec fn slashed(p: Seq<char>) -> Seq<char> {
    p.map_values(|c: char| if is_sep(c) { '/' } else { c })
}

/// The components of `p`: whether it starts at the root, then its parts.
pub open spec fn components(p: Seq<char>) -> (bool, Seq<Seq<char>>) {
    (p.len() > 0 && is_sep(p[0]), keep_parts(split(slashed(p), '/'), true))
}

/// `p` with each separator written as `/`.
fn slashed_of(p: &[char]) -> (r: Vec<char>)
    ensures
        r@ == slashed(p@),
{
    let mut out: Vec<char> = Vec::new();
    let mut i: usize = 0;
    while i < p.len()
        invariant
            i <= p.len(),
            out@ == slashed(p@.take(i as int)),
        decreases p.len() - i,
    {
        let c = if p[i] == '/' || p[i] == '\\' { '/' } else { p[i] };
        out.push(c);
        assert(out@ =~= slashed(p@.take(i + 1)));
        i += 1;
    }
    assert(p@.take(p.len() as int) =~= p@);
    out
}

/// Whether `p` starts at the root.
fn rooted(p: &[char]) -> (b: bool)
    ensures
        b == (p@.len() > 0 && is_sep(p@[0])),
{
    p.len() > 0 && (p[0] == '/' || p[0] == '\\')
}

/// Whether `p` lies at or below `base`, component by component, as `Path::starts_with` says.
pub open spec fn path_starts_with(p: Seq<char>, base: Seq<char>) -> bool {
    let (rp, cp) = components(p);
    let (rb, cb) = components(base);
    rp == rb && cb.len() <= cp.len() && cp.take(cb.len() as int) == cb
}

/// Whether two paths have the same components, as `==` on paths says.
pub open spec fn same_path(a: Seq<char>, b: Seq<char>) -> bool {
    components(a) == components(b)
}

fn parts_of(p: &[char]) -> (r: Vec<Vec<char>>)
    ensures
        views(r@) == components(p@).1,
{
    let unified = slashed_of(p);
    let pieces = split_on(&unified, '/');
    let mut kept: Vec<Vec<char>> = Vec::new();
    let mut i: usize = 0;
    assert(views(pieces@).skip(0) =~= views(pieces@));
    while i < pieces.len()
        invariant
            i <= pieces.len(),
            views(pieces@) == split(slashed(p@), '/'),
            keep_parts(views(pieces@), true) == views(kept@) + keep_parts(views(pieces@).skip(i as int), i == 0),
        decreases pieces.len() - i,
    {
        let piece = &pieces[i];
        let keep = piece.len() > 0 && (!(piece.len() == 1 && piece[0] == '.') || i == 0);
        proof {
            let rest = views(pieces@).skip(i as int);
            assert(rest[0] == piece@);
            assert(rest.drop_first() =~= views(pieces@).skip(i + 1));
            if piece@.len() == 1 && piece@[0] == '.' {
                assert(piece@ =~= seq!['.']);
            }
            if piece@ == seq!['.'] {
                assert(piece@.len() == 1);
            }
        }
        if keep {
            kept.push(crate::text::slice_vec(piece, 0, piece.len()));
            proof {
                assert(piece@.subrange(0, piece@.len() as int) =~= piece@);
                assert(views(kept@) =~= views(kept@.drop_last()).push(piece@));
                assert(views(kept@.drop_last()) + (seq![piece@] + keep_parts(views(pieces@).skip(i + 1), false)) =~= views(kept@) + keep_parts(views(pieces@).skip(i + 1), false));
            }
        } else {
            proof {
                assert(views(kept@) + (Seq::<Seq<char>>::empty() + keep_parts(views(pieces@).skip(i + 1), false)) =~= views(kept@) + keep_parts(views(pieces@).skip(i + 1), false));
            }
        }
        i += 1;
    }
    proof {
        assert(keep_parts(views(pieces@).skip(pieces.len() as int), pieces.len() == 0) =~= Seq::<Seq<char>>::empty());
        assert(views(kept@) + Seq::<Seq<char>>::empty() =~= views(kept@));
    }
    kept
}


/// Whether the first `n` parts of `a` and `b` agree.
fn same_prefix(a: &Vec<Vec<char>>, b: &Vec<Vec<char>>, n: usize) -> (r: bool)
    requires
        n <= a.len(),
        n <= b.len(),
    ensures
        r == (views(a@).take(n as int) == views(b@).take(n as int)),
{
    let mut i: usize = 0;
    while i < n
        invariant
            i <= n <= a.len(),
            n <= b.len(),
            forall|j: int| 0 <= j < i ==> a@[j]@ == b@[j]@,
        decreases n - i,
    {
        if !crate::text::same_chars(&a[i], &b[i]) {
            assert(views(a@).take(n as int)[i as int] != views(b@).take(n as int)[i as int]);
            return false;
        }
        i += 1;
    }
    assert(views(a@).take(n as int) =~= views(b@).take(n as int));
    true
}

/// Whether `a` and `b` name the same path, component by component.
pub fn paths_equal(a: &str, b: &str) -> (r: bool)
    ensures
        r == same_path(a@, b@),
{
    let x = chars_of(a);
    let y = chars_of(b);
    let xp = parts_of(&x);
    let yp = parts_of(&y);
    let x_root = rooted(&x);
    let y_root = rooted(&y);
    let same = x_root == y_root && xp.len() == yp.len() && same_prefix(&xp, &yp, xp.len());
    proof {
        if xp.len() == yp.len() {
            assert(views(xp@).take(xp.len() as int) =~= views(xp@));
            assert(views(yp@).take(yp.len() as int) =~= views(yp@));
        }
        if same_path(a@, b@) {
            assert(views(xp@).len() == views(yp@).len());
        }
    }
    same
}

/// Whether deleting `target`, a map's home, may go ahead inside `root`, the library;
/// both are paths as the file system resolved them.
pub fn check_removal(target: &str, root: &str, name: &str) -> (r: Result<(), Error>)
    ensures
        same_path(target@, root@) ==> r == Err::<(), Error>(Error::IsLibraryRoot),
        !same_path(target@, root@) && !path_starts_with(target@, root@) ==> (r matches Err(Error::OutsideLibrary(n)) && n@ == name@),
        !same_path(target@, root@) && path_starts_with(target@, root@) ==> r is Ok,
{
    let t = chars_of(target);
    let b = chars_of(root);
    let tp = parts_of(&t);
    let bp = parts_of(&b);
    let t_root = rooted(&t);
    let b_root = rooted(&b);
    let same = t_root == b_root && tp.len() == bp.len() && same_prefix(&tp, &bp, tp.len());
    proof {
        if tp.len() == bp.len() {
            assert(views(tp@).take(tp.len() as int) =~= views(tp@));
            assert(views(bp@).take(bp.len() as int) =~= views(bp@));
        }
        if same_path(target@, root@) {
            assert(views(tp@).len() == views(bp@).len());
        }
    }
    if same {
        return Err(Error::IsLibraryRoot);
    }
    let inside = t_root == b_root && bp.len() <= tp.len() && same_prefix(&tp, &bp, bp.len());
    proof {
        if bp.len() <= tp.len() {
            assert(views(bp@).take(bp.len() as int) =~= views(bp@));
        }
    }
    if !inside {
        return Err(Error::OutsideLibrary(string_of(&chars_of(name))));
    }
    Ok(())
}

} // verus!

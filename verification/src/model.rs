use vstd::prelude::*;

use crate::catalog::{plain_text, plain_text_spec, Entry};
use crate::library::LocalMap;
use crate::matching::opt_view;
use crate::text::{chars_of, contains, contains_in, lowercase, to_lowercase, trim, trimmed, string_of};

verus! {

/// Where a card came from.
#[derive(Debug, Clone, Copy, PartialEq, Eq, Structural)]
pub enum Source {
    Local,
    Catalog,
}

/// The two pages of the window.
#[derive(Debug, Clone, Copy, PartialEq, Eq, Hash, Structural)]
pub enum Tab {
    Library,
    Explore,
}

pub open spec fn tab_label(t: Tab) -> Seq<char> {
    match t {
        Tab::Library => "Library"@,
        Tab::Explore => "Explore"@,
    }
}

impl Tab {
    pub const ALL: [Tab; 2] = [Tab::Library, Tab::Explore];

    /// The word on the tab.
    pub fn label(self) -> (r: &'static str)
        ensures
            r@ == tab_label(self),
    {
        proof {
            reveal_strlit("Library");
            reveal_strlit("Explore");
        }
        match self {
            Tab::Library => "Library",
            Tab::Explore => "Explore",
        }
    }
}

/// How the catalog is ordered.
#[derive(Debug, Clone, Copy, PartialEq, Eq, Structural)]
pub enum Sort {
    MostLiked,
    MostDownloaded,
    Newest,
    Starred,
}

pub open spec fn sort_label(s: Sort) -> Seq<char> {
    match s {
        Sort::MostLiked => "Most liked"@,
        Sort::MostDownloaded => "Most downloaded"@,
        Sort::Newest => "Newest"@,
        Sort::Starred => "Starred"@,
    }
}

impl Default for Sort {
    fn default() -> (s: Sort)
        ensures
            s == Sort::MostLiked,
    {
        Sort::MostLiked
    }
}

impl Sort {
    pub const ALL: [Sort; 4] = [Sort::MostLiked, Sort::MostDownloaded, Sort::Newest, Sort::Starred];

    /// The words the picker shows for the ordering.
    pub fn label(self) -> (r: &'static str)
        ensures
            r@ == sort_label(self),
    {
        proof {
            reveal_strlit("Most liked");
            reveal_strlit("Most downloaded");
            reveal_strlit("Newest");
            reveal_strlit("Starred");
        }
        match self {
            Sort::MostLiked => "Most liked",
            Sort::MostDownloaded => "Most downloaded",
            Sort::Newest => "Newest",
            Sort::Starred => "Starred",
        }
    }
}

/// How the library is ordered.
#[derive(Debug, Clone, Copy, PartialEq, Eq, Structural)]
pub enum Shelf {
    Newest,
    Oldest,
    Starred,
}

pub open spec fn shelf_label(s: Shelf) -> Seq<char> {
    match s {
        Shelf::Newest => "Newest"@,
        Shelf::Oldest => "Oldest"@,
        Shelf::Starred => "Starred"@,
    }
}

impl Default for Shelf {
    fn default() -> (s: Shelf)
        ensures
            s == Shelf::Newest,
    {
        Shelf::Newest
    }
}

impl Shelf {
    pub const ALL: [Shelf; 3] = [Shelf::Newest, Shelf::Oldest, Shelf::Starred];

    /// The word the picker shows for the ordering.
    pub fn label(self) -> (r: &'static str)
        ensures
            r@ == shelf_label(self),
    {
        proof {
            reveal_strlit("Newest");
            reveal_strlit("Oldest");
            reveal_strlit("Starred");
        }
        match self {
            Shelf::Newest => "Newest",
            Shelf::Oldest => "Oldest",
            Shelf::Starred => "Starred",
        }
    }
}

/// The picture on a card: a file on disk, an address to fetch, or none.
#[derive(Debug, Clone, PartialEq, Eq)]
pub enum Art {
    File(String),
    Remote(String),
    Absent,
}

/// What the gallery knows a picture by.
pub open spec fn art_key_spec(a: Art) -> Option<Seq<char>> {
    match a {
        Art::File(p) => Some(p@),
        Art::Remote(u) => Some(u@),
        Art::Absent => None,
    }
}

impl Art {
    /// What the gallery knows the picture by, if there is one.
    pub fn key(&self) -> (r: Option<&str>)
        ensures
            match r {
                Some(k) => art_key_spec(*self) == Some(k@),
                None => art_key_spec(*self) is None,
            },
    {
        match self {
            Art::File(path) => Some(path.as_str()),
            Art::Remote(url) => Some(url.as_str()),
            Art::Absent => None,
        }
    }
}

/// One tile of either page.
#[derive(Debug, Clone)]
pub struct Card {
    pub key: String,
    pub name: String,
    pub author: Option<String>,
    pub blurb: Option<String>,
    pub source: Source,
    pub art: Art,
    pub loaded: bool,
    pub catalog_index: Option<usize>,
}

/// What was typed in the search box, trimmed and lowercased.
pub struct Query(String);

impl View for Query {
    type V = Seq<char>;

    closed spec fn view(&self) -> Seq<char> {
        self.0@
    }
}

impl Query {
    /// The query for what was typed: case and surrounding blanks do not count.
    pub fn new(raw: &str) -> (q: Query)
        ensures
            q@ == lowercase(trim(raw@)),
    {
        let t = string_of(&trimmed(&chars_of(raw)));
        Query(to_lowercase(t.as_str()))
    }
}

/// Whether a card with this name and author shows for the query: an empty
/// query hides nothing, else the name or the author must hold it, case aside.
pub open spec fn matches_spec(name: Seq<char>, author: Option<Seq<char>>, needle: Seq<char>) -> bool {
    ||| needle.len() == 0
    ||| contains(lowercase(name), needle)
    ||| (author matches Some(a) && contains(lowercase(a), needle))
}

impl Card {
    /// What the gallery knows the card's picture by, if it has one.
    pub fn art_key(&self) -> (r: Option<String>)
        ensures
            opt_view(r) == art_key_spec(self.art),
    {
        match self.art.key() {
            Some(k) => Some(string_of(&chars_of(k))),
            None => None,
        }
    }

    /// Whether the card shows for what was typed in the search box.
    pub fn matches(&self, query: &Query) -> (b: bool)
        ensures
            b == matches_spec(self.name@, opt_view(self.author), query@),
    {
        let needle = chars_of(query.0.as_str());
        if needle.len() == 0 {
            return true;
        }
        let name = chars_of(to_lowercase(self.name.as_str()).as_str());
        if contains_in(&name, &needle) {
            return true;
        }
        match &self.author {
            Some(a) => {
                let author = chars_of(to_lowercase(a.as_str()).as_str());
                contains_in(&author, &needle)
            },
            None => false,
        }
    }
}

/// The card for a map in the library; `loaded_name` is the map in the game.
pub fn from_library(map: &LocalMap, loaded_name: Option<&str>) -> (c: Card)
    ensures
        c.key@ == map.home_spec(),
        c.name@ == map.name@,
        opt_view(c.author) == opt_view(map.author),
        c.blurb is None,
        c.source == Source::Local,
        match map.image {
            Some(p) => c.art matches Art::File(q) && q@ == p@,
            None => c.art is Absent,
        },
        c.loaded == (loaded_name matches Some(n) && n@ == map.name@),
        c.catalog_index is None,
{
    let loaded = match loaded_name {
        Some(n) => string_of(&chars_of(n)) == map.name,
        None => false,
    };
    let art = match &map.image {
        Some(p) => Art::File(p.clone()),
        None => Art::Absent,
    };
    Card {
        key: map.key(),
        name: map.name.clone(),
        author: map.author.clone(),
        blurb: None,
        source: Source::Local,
        art,
        loaded,
        catalog_index: None,
    }
}

/// The card for entry `index` of the catalog.
pub fn from_catalog(entry: &Entry, index: usize) -> (c: Card)
    ensures
        c.key@ == entry.name@,
        c.name@ == entry.name@,
        opt_view(c.author) == Some("Lethamyr"@),
        opt_view(c.blurb) == match entry.description_short {
            Some(d) => Some(plain_text_spec(d@)),
            None => None,
        },
        c.source == Source::Catalog,
        entry.media@.len() == 0 ==> c.art is Absent,
        entry.media@.len() > 0 ==> (c.art matches Art::Remote(u) && u@ == entry.media@[0]@),
        !c.loaded,
        c.catalog_index == Some(index),
{
    proof {
        reveal_strlit("Lethamyr");
    }
    let blurb = match &entry.description_short {
        Some(d) => Some(plain_text(d.as_str())),
        None => None,
    };
    let art = match entry.thumbnail() {
        Some(url) => Art::Remote(string_of(&chars_of(url))),
        None => Art::Absent,
    };
    Card {
        key: entry.name.clone(),
        name: entry.name.clone(),
        author: Some("Lethamyr".to_string()),
        blurb,
        source: Source::Catalog,
        art,
        loaded: false,
        catalog_index: Some(index),
    }
}

} // verus!

//! What each part of the window says and offers, decided from plain state. The
//! window draws it.
use vstd::prelude::*;

use crate::deck::Screen;
use crate::game::{launcher_label, Install};
use crate::library::{paths_equal, same_path};
use crate::matching::catalog_star_key;
use crate::model::{art_key_spec, Art, Card, Source, Tab};
use crate::catalog::{absolute, chunk_view, chunks_view, linkify, linkify_spec, Chunk};
use crate::gallery::{holds_text, texts};
use crate::text::{chars_of, push_str, slice_vec, starts_with, starts_with_in, string_of, trim, trim_bounds};
use crate::ui::{decimal, megabytes, rounded_megabytes};

verus! {

/// The mark drawn on an action button.
#[derive(Debug, Clone, Copy, PartialEq, Eq, Structural)]
pub enum Mark {
    Spinner,
    Check,
    Load,
    Download,
}

/// What pressing an action button does.
#[derive(Debug, Clone, Copy, PartialEq, Eq, Structural)]
pub enum Press {
    /// Nothing: the button waits.
    Nothing,
    /// Puts the original level back.
    Repair,
    /// Loads or downloads the map the button belongs to.
    Act,
}

/// An action button: its mark, its words and what it does.
#[derive(Debug, Clone, PartialEq, Eq)]
pub struct Action {
    pub mark: Mark,
    pub label: String,
    pub press: Press,
}

/// The main button of a card: a download or a load in progress waits; a map
/// in the game offers repair; otherwise the map can be loaded or downloaded.
pub fn card_action(card: &Card, downloading: bool, swapping: bool) -> (a: Action)
    ensures
        downloading ==> a.mark == Mark::Spinner && a.label@ == "Downloading\u{2026}"@ && a.press == Press::Nothing,
        !downloading && swapping ==> a.mark == Mark::Spinner && a.label@ == "Loading\u{2026}"@ && a.press == Press::Nothing,
        !downloading && !swapping && card.loaded ==> a.mark == Mark::Check && a.label@ == "In game"@ && a.press == Press::Repair,
        !downloading && !swapping && !card.loaded && card.source == Source::Local ==> a.mark == Mark::Load && a.label@ == "Load"@
            && a.press == Press::Act,
        !downloading && !swapping && !card.loaded && card.source == Source::Catalog ==> a.mark == Mark::Download
            && a.label@ == "Download"@ && a.press == Press::Act,
{
    if downloading {
        Action { mark: Mark::Spinner, label: "Downloading\u{2026}".to_string(), press: Press::Nothing }
    } else if swapping {
        Action { mark: Mark::Spinner, label: "Loading\u{2026}".to_string(), press: Press::Nothing }
    } else if card.loaded {
        Action { mark: Mark::Check, label: "In game".to_string(), press: Press::Repair }
    } else {
        match card.source {
            Source::Local => Action { mark: Mark::Load, label: "Load".to_string(), press: Press::Act },
            Source::Catalog => Action { mark: Mark::Download, label: "Download".to_string(), press: Press::Act },
        }
    }
}

/// The main button of an open library map: a load in progress waits; a map in
/// the game offers repair; otherwise it can be loaded.
pub fn local_action(loaded: bool, swapping: bool) -> (a: Action)
    ensures
        swapping ==> a.mark == Mark::Spinner && a.label@ == "Loading\u{2026}"@ && a.press == Press::Nothing,
        !swapping && loaded ==> a.mark == Mark::Check && a.label@ == "In game"@ && a.press == Press::Repair,
        !swapping && !loaded ==> a.mark == Mark::Load && a.label@ == "Load"@ && a.press == Press::Act,
{
    if swapping {
        Action { mark: Mark::Spinner, label: "Loading\u{2026}".to_string(), press: Press::Nothing }
    } else if loaded {
        Action { mark: Mark::Check, label: "In game".to_string(), press: Press::Repair }
    } else {
        Action { mark: Mark::Load, label: "Load".to_string(), press: Press::Act }
    }
}

/// The download button of an open catalog map: it waits while the map downloads.
pub fn download_action(busy: bool) -> (a: Action)
    ensures
        busy ==> a.mark == Mark::Spinner && a.label@ == "Downloading\u{2026}"@ && a.press == Press::Nothing,
        !busy ==> a.mark == Mark::Download && a.label@ == "Download"@ && a.press == Press::Act,
{
    if busy {
        Action { mark: Mark::Spinner, label: "Downloading\u{2026}".to_string(), press: Press::Nothing }
    } else {
        Action { mark: Mark::Download, label: "Download".to_string(), press: Press::Act }
    }
}

/// The line under a card's title: a catalog map's blurb, a library map's author.
pub fn under_title(card: &Card) -> (s: String)
    ensures
        card.source == Source::Catalog ==> s@ == match card.blurb {
            Some(b) => b@,
            None => Seq::<char>::empty(),
        },
        card.source == Source::Local ==> s@ == match card.author {
            Some(a) => a@,
            None => "Unknown"@,
        },
{
    match card.source {
        Source::Catalog => match &card.blurb {
            Some(b) => string_of(&chars_of(b.as_str())),
            None => String::new(),
        },
        Source::Local => match &card.author {
            Some(a) => string_of(&chars_of(a.as_str())),
            None => "Unknown".to_string(),
        },
    }
}

/// The key a card's star is kept under: a catalog map's by its name, a library
/// map's by its key.
pub fn star_key(card: &Card) -> (k: String)
    ensures
        card.source == Source::Catalog ==> k@ == crate::matching::catalog_key_spec(card.name@),
        card.source == Source::Local ==> k@ == card.key@,
{
    match card.source {
        Source::Catalog => catalog_star_key(card.name.as_str()),
        Source::Local => string_of(&chars_of(card.key.as_str())),
    }
}

/// What stands in the picture frame while there is no picture: why.
pub fn picture_placeholder(has_url: bool, unavailable: bool) -> (s: String)
    ensures
        has_url && unavailable ==> s@ == "Image unavailable"@,
        has_url && !unavailable ==> s@ == "Loading\u{2026}"@,
        !has_url ==> s@ == "No screenshot"@,
{
    if has_url {
        if unavailable {
            "Image unavailable".to_string()
        } else {
            "Loading\u{2026}".to_string()
        }
    } else {
        "No screenshot".to_string()
    }
}

/// How big a library map is, as its sheet says: its size, and how many files
/// when there is more than one.
pub fn files_line(count: usize, bytes: u64) -> (s: String)
    ensures
        count == 1 ==> s@ == decimal(rounded_megabytes(bytes as nat)) + " MB"@,
        count != 1 ==> s@ == decimal(count as nat) + " files \u{00b7} "@ + decimal(rounded_megabytes(bytes as nat)) + " MB"@,
{
    let size = megabytes(bytes);
    if count == 1 {
        return size;
    }
    let mut s = string_of(&crate::ui::decimal_of(count as u64));
    push_str(&mut s, " files \u{00b7} ");
    push_str(&mut s, size.as_str());
    s
}

/// How far work has got, as its bar says: done of total when the total is
/// known, what is done when anything is, else nothing.
pub fn counted(done: u64, total: u64) -> (s: String)
    ensures
        total > 0 ==> s@ == decimal(rounded_megabytes(done as nat)) + " MB"@ + " of "@ + decimal(rounded_megabytes(total as nat))
            + " MB"@,
        total == 0 && done > 0 ==> s@ == decimal(rounded_megabytes(done as nat)) + " MB"@,
        total == 0 && done == 0 ==> s@.len() == 0,
{
    if total > 0 {
        let mut s = megabytes(done);
        push_str(&mut s, " of ");
        push_str(&mut s, megabytes(total).as_str());
        s
    } else if done > 0 {
        megabytes(done)
    } else {
        String::new()
    }
}

/// The heading and the explanation of the game chooser, by how many installs
/// were found.
pub fn chooser_text(installs: usize) -> (t: (String, String))
    ensures
        installs == 0 ==> t.0@ == "Where is Rocket League?"@
            && t.1@ == "We couldn't find it automatically. Pick the folder it's installed in, the one with a TAGame folder inside."@,
        installs == 1 ==> t.0@ == "Rocket League folder"@
            && t.1@ == "This is the install we found. Pick a different folder if it isn't the one you play."@,
        installs > 1 ==> t.0@ == "Which Rocket League?"@
            && t.1@ == "More than one install is on this PC. Maps go into the one you pick."@,
{
    if installs == 0 {
        (
            "Where is Rocket League?".to_string(),
            "We couldn't find it automatically. Pick the folder it's installed in, the one with a TAGame folder inside.".to_string(),
        )
    } else if installs == 1 {
        (
            "Rocket League folder".to_string(),
            "This is the install we found. Pick a different folder if it isn't the one you play.".to_string(),
        )
    } else {
        ("Which Rocket League?".to_string(), "More than one install is on this PC. Maps go into the one you pick.".to_string())
    }
}

/// Whether the install at `root` is the one in use.
pub fn is_current(game_dir: Option<&str>, root: &str) -> (b: bool)
    ensures
        b == (game_dir matches Some(g) && same_path(g@, root@)),
{
    match game_dir {
        Some(g) => paths_equal(g, root),
        None => false,
    }
}

/// Whether some install before position `upto` is at `dir`.
pub open spec fn found_before(installs: Seq<Install>, dir: Seq<char>, upto: int) -> bool {
    exists|j: int| 0 <= j < upto && same_path(#[trigger] installs[j].root@, dir)
}

/// How the menu names the game folder in use: the store it came from and the
/// folder, when it is one of the installs found; else the folder alone.
pub fn game_folder_line(game_dir: Option<&str>, installs: &[Install]) -> (s: Option<String>)
    ensures
        game_dir is None ==> s is None,
        game_dir matches Some(dir) ==> s matches Some(line) && {
            if found_before(installs@, dir@, installs@.len() as int) {
                exists|j: int|
                    0 <= j < installs@.len() && same_path(#[trigger] installs@[j].root@, dir@) && !found_before(installs@, dir@, j)
                        && line@ == launcher_label(installs@[j].launcher) + " \u{00b7} "@ + dir@
            } else {
                line@ == dir@
            }
        },
{
    let dir = match game_dir {
        Some(d) => d,
        None => return None,
    };
    let mut j: usize = 0;
    while j < installs.len()
        invariant
            j <= installs@.len(),
            game_dir == Some(dir),
            !found_before(installs@, dir@, j as int),
        decreases installs@.len() - j,
    {
        if paths_equal(installs[j].root.as_str(), dir) {
            let mut line = string_of(&chars_of(installs[j].launcher.label()));
            push_str(&mut line, " \u{00b7} ");
            push_str(&mut line, dir);
            proof {
                assert(found_before(installs@, dir@, installs@.len() as int));
                assert(line@ == launcher_label(installs@[j as int].launcher) + " \u{00b7} "@ + dir@);
            }
            return Some(line);
        }
        j += 1;
    }
    Some(string_of(&chars_of(dir)))
}

/// Where the catalog stands: being fetched, fetched, or failed with a reason.
#[derive(Debug, Clone, PartialEq, Eq)]
pub enum Loading {
    Busy,
    Ready,
    Failed(String),
}

/// What an empty page says, and which button it offers.
#[derive(Debug, Clone, PartialEq, Eq)]
pub struct Blank {
    pub head: String,
    pub sub: String,
    pub offers_import: bool,
    pub offers_retry: bool,
}

/// What a page with no cards says: a search that found nothing says so; an
/// empty library names its folder and offers an import; the explore page says
/// how the catalog stands, and offers to try again when it failed.
pub fn blank_page(tab: Tab, query: &str, catalog: &Loading, library_dir: &str) -> (b: Blank)
    ensures
        trim(query@).len() > 0 ==> b.head@ == "No matches"@ && b.sub@.len() == 0,
        trim(query@).len() == 0 && tab == Tab::Library ==> b.head@ == "No maps yet"@ && b.sub@ == library_dir@,
        trim(query@).len() == 0 && tab == Tab::Explore ==> match catalog {
            Loading::Busy => b.head@ == "Loading\u{2026}"@ && b.sub@.len() == 0,
            Loading::Failed(err) => b.head@ == "Catalog unavailable"@ && b.sub@ == err@,
            Loading::Ready => b.head@ == "Nothing here"@ && b.sub@.len() == 0,
        },
        b.offers_import == (tab == Tab::Library && trim(query@).len() == 0),
        b.offers_retry == (tab == Tab::Explore && trim(query@).len() == 0 && catalog is Failed),
{
    let q = chars_of(query);
    let (a, z) = trim_bounds(&q);
    let searching = a < z;
    let (head, sub) = if searching {
        ("No matches".to_string(), String::new())
    } else {
        match tab {
            Tab::Library => ("No maps yet".to_string(), string_of(&chars_of(library_dir))),
            Tab::Explore => match catalog {
                Loading::Busy => ("Loading\u{2026}".to_string(), String::new()),
                Loading::Failed(err) => ("Catalog unavailable".to_string(), string_of(&chars_of(err.as_str()))),
                Loading::Ready => ("Nothing here".to_string(), String::new()),
            },
        }
    };
    let failed = match catalog {
        Loading::Failed(_) => true,
        _ => false,
    };
    Blank {
        head,
        sub,
        offers_import: tab == Tab::Library && !searching,
        offers_retry: tab == Tab::Explore && !searching && failed,
    }
}

/// The question asked before a load backs up a level that matches no known
/// original: which map, and how big the level kept is.
pub fn backup_question(name: &str, bytes: u64) -> (s: String)
    ensures
        s@ == "Loading "@ + name@ + " replaces Underpass. Before that happens we'll keep a copy of the one you have now ("@
            + decimal(rounded_megabytes(bytes as nat)) + " MB"@ + "), so Repair can always put it back."@,
{
    let mut s = "Loading ".to_string();
    push_str(&mut s, name);
    push_str(&mut s, " replaces Underpass. Before that happens we'll keep a copy of the one you have now (");
    push_str(&mut s, megabytes(bytes).as_str());
    push_str(&mut s, "), so Repair can always put it back.");
    s
}

/// What lies over the cards: at most one layer shows, the topmost open one.
#[derive(Debug, Clone, Copy, PartialEq, Eq, Structural)]
pub enum Layer {
    Question,
    Chooser,
    Detail,
    LocalDetail,
    Menu,
    Bare,
}

/// What shows above the cards: work in progress, else a notice, else nothing.
#[derive(Debug, Clone, Copy, PartialEq, Eq, Structural)]
pub enum Strip {
    Working,
    Notice,
    Empty,
}

impl Screen {
    /// The layer that shows over the cards: the backup question, then the game
    /// chooser, then an open catalog map, then an open library map, then the menu.
    pub fn top_layer(&self) -> (l: Layer)
        ensures
            self.pending is Some ==> l == Layer::Question,
            self.pending is None && self.chooser ==> l == Layer::Chooser,
            self.pending is None && !self.chooser && self.detail is Some ==> l == Layer::Detail,
            self.pending is None && !self.chooser && self.detail is None && self.local_detail is Some ==> l == Layer::LocalDetail,
            self.pending is None && !self.chooser && self.detail is None && self.local_detail is None && self.menu_open ==> l
                == Layer::Menu,
            self.pending is None && !self.chooser && self.detail is None && self.local_detail is None && !self.menu_open ==> l
                == Layer::Bare,
    {
        if self.pending.is_some() {
            Layer::Question
        } else if self.chooser {
            Layer::Chooser
        } else if self.detail.is_some() {
            Layer::Detail
        } else if self.local_detail.is_some() {
            Layer::LocalDetail
        } else if self.menu_open {
            Layer::Menu
        } else {
            Layer::Bare
        }
    }

    /// What shows in the strip above the cards.
    pub fn strip(&self) -> (s: Strip)
        ensures
            self.working is Some ==> s == Strip::Working,
            self.working is None && self.notice is Some ==> s == Strip::Notice,
            self.working is None && self.notice is None ==> s == Strip::Empty,
    {
        if self.working.is_some() {
            Strip::Working
        } else if self.notice.is_some() {
            Strip::Notice
        } else {
            Strip::Empty
        }
    }
}


/// `url` with a scheme, as `absolute` gives it.
pub open spec fn absolute_spec(url: Seq<char>) -> Seq<char> {
    if starts_with(url, "http://"@) || starts_with(url, "https://"@) {
        url
    } else {
        "https://"@ + url
    }
}

/// The links among `chunks`, each with a scheme, in order.
pub open spec fn links_of(chunks: Seq<(bool, Seq<char>)>) -> Seq<Seq<char>>
    decreases chunks.len(),
{
    if chunks.len() == 0 {
        Seq::empty()
    } else {
        let rest = links_of(chunks.drop_last());
        if chunks.last().0 {
            rest.push(absolute_spec(chunks.last().1))
        } else {
            rest
        }
    }
}

/// The links in the texts of `sources`, in order, repeats included.
pub open spec fn links_in_all(sources: Seq<Option<String>>) -> Seq<Seq<char>>
    decreases sources.len(),
{
    if sources.len() == 0 {
        Seq::empty()
    } else {
        let rest = links_in_all(sources.drop_last());
        match sources.last() {
            Some(text) => rest + links_of(linkify_spec(text@)),
            None => rest,
        }
    }
}

/// `s` with each item kept at its first place only.
pub open spec fn first_places(s: Seq<Seq<char>>) -> Seq<Seq<char>>
    decreases s.len(),
{
    if s.len() == 0 {
        Seq::empty()
    } else {
        let rest = first_places(s.drop_last());
        if s.drop_last().contains(s.last()) {
            rest
        } else {
            rest.push(s.last())
        }
    }
}

proof fn lemma_first_places_contains(s: Seq<Seq<char>>, x: Seq<char>)
    ensures
        first_places(s).contains(x) <==> s.contains(x),
    decreases s.len(),
{
    if s.len() > 0 {
        lemma_first_places_contains(s.drop_last(), x);
        lemma_first_places_contains(s.drop_last(), s.last());
        assert(s =~= s.drop_last().push(s.last()));
        if s.contains(x) {
            let k = choose|k: int| 0 <= k < s.len() && s[k] == x;
            if k < s.len() - 1 {
                assert(s.drop_last()[k] == x);
            }
        }
        if s.drop_last().contains(x) {
            let k = choose|k: int| 0 <= k < s.drop_last().len() && s.drop_last()[k] == x;
            assert(s[k] == x);
        }
        let rest = first_places(s.drop_last());
        if !s.drop_last().contains(s.last()) {
            if rest.push(s.last()).contains(x) {
                let k = choose|k: int| 0 <= k < rest.push(s.last()).len() && rest.push(s.last())[k] == x;
                if k < rest.len() {
                    assert(rest[k] == x);
                }
            }
            if rest.contains(x) {
                let k = choose|k: int| 0 <= k < rest.len() && rest[k] == x;
                assert(rest.push(s.last())[k] == x);
            }
            assert(rest.push(s.last())[rest.len() as int] == s.last());
        }
        assert(s[s.len() - 1] == s.last());
    }
}

/// Each address is offered once, and every address found is offered.
pub proof fn links_are_offered_once(found: Seq<Seq<char>>)
    ensures
        first_places(found).no_duplicates(),
        forall|x: Seq<char>| first_places(found).contains(x) <==> found.contains(x),
    decreases found.len(),
{
    assert forall|x: Seq<char>| first_places(found).contains(x) <==> found.contains(x) by {
        lemma_first_places_contains(found, x);
    }
    if found.len() > 0 {
        links_are_offered_once(found.drop_last());
        let rest = first_places(found.drop_last());
        lemma_first_places_contains(found.drop_last(), found.last());
        if !found.drop_last().contains(found.last()) {
            let r = rest.push(found.last());
            assert forall|a: int, b: int| 0 <= a < r.len() && 0 <= b < r.len() && a != b implies r[a] != r[b] by {
                if a < rest.len() && b < rest.len() {
                    assert(rest[a] != rest[b]);
                } else if a == rest.len() {
                    assert(rest.contains(r[b]) || b == a);
                } else {
                    assert(rest.contains(r[a]));
                }
            }
        }
    }
}

/// The web addresses found in `sources`, each once, in the order they first
/// appear, each with a scheme: the links an open map offers as buttons.
pub fn link_targets(sources: &[Option<String>]) -> (urls: Vec<String>)
    ensures
        texts(urls@) == first_places(links_in_all(sources@)),
{
    let mut urls: Vec<String> = Vec::new();
    let ghost mut seen: Seq<Seq<char>> = Seq::empty();
    let mut i: usize = 0;
    while i < sources.len()
        invariant
            i <= sources@.len(),
            seen == links_in_all(sources@.take(i as int)),
            texts(urls@) == first_places(seen),
        decreases sources@.len() - i,
    {
        assert(sources@.take(i + 1).drop_last() =~= sources@.take(i as int));
        assert(sources@.take(i + 1).last() == sources@[i as int]);
        match &sources[i] {
            Some(body) => {
                let chunks = linkify(body.as_str());
                let ghost before = seen;
                let mut j: usize = 0;
                assert(chunks_view(chunks@).take(0) =~= Seq::<(bool, Seq<char>)>::empty());
                assert(before + links_of(Seq::<(bool, Seq<char>)>::empty()) =~= before);
                while j < chunks.len()
                    invariant
                        j <= chunks@.len(),
                        chunks_view(chunks@) == linkify_spec(body@),
                        seen == before + links_of(chunks_view(chunks@).take(j as int)),
                        texts(urls@) == first_places(seen),
                    decreases chunks@.len() - j,
                {
                    let ghost cv = chunks_view(chunks@);
                    assert(cv.take(j + 1).drop_last() =~= cv.take(j as int));
                    assert(cv.take(j + 1).last() == cv[j as int]);
                    assert(cv[j as int] == chunk_view(chunks@[j as int]));
                    match &chunks[j] {
                        Chunk::Link(u) => {
                            let abs = absolute(u.as_str());
                            assert(abs@ == absolute_spec(u@));
                            proof {
                                lemma_first_places_contains(seen, abs@);
                            }
                            let known = holds_text(&urls, abs.as_str());
                            let ghost prev = seen;
                            proof {
                                seen = seen.push(abs@);
                                assert(seen.drop_last() =~= prev);
                                assert(seen.last() == abs@);
                                assert(seen == before + links_of(cv.take(j + 1)));
                            }
                            if !known {
                                let ghost u0 = urls@;
                                urls.push(abs);
                                assert(texts(urls@) =~= texts(u0).push(seen.last()));
                            }
                        },
                        Chunk::Text(_) => {
                            assert(links_of(cv.take(j + 1)) == links_of(cv.take(j as int)));
                        },
                    }
                    j += 1;
                }
                assert(chunks_view(chunks@).take(chunks@.len() as int) =~= chunks_view(chunks@));
            },
            None => {},
        }
        i += 1;
    }
    assert(sources@.take(sources@.len() as int) =~= sources@);
    urls
}

/// `s` with every leading copy of `p` taken off.
pub open spec fn strip_leading(s: Seq<char>, p: Seq<char>) -> Seq<char>
    decreases s.len(),
{
    if p.len() > 0 && starts_with(s, p) {
        strip_leading(s.skip(p.len() as int), p)
    } else {
        s
    }
}

/// `s` with every trailing `c` taken off.
pub open spec fn strip_trailing(s: Seq<char>, c: char) -> Seq<char>
    decreases s.len(),
{
    if s.len() > 0 && s.last() == c {
        strip_trailing(s.drop_last(), c)
    } else {
        s
    }
}

/// How a link's button reads: the address without its scheme and without
/// trailing slashes.
pub open spec fn link_label_spec(url: Seq<char>) -> Seq<char> {
    strip_trailing(strip_leading(strip_leading(url, "https://"@), "http://"@), '/')
}

fn strip_leading_from(s: Vec<char>, p: &[char]) -> (r: Vec<char>)
    requires
        p@.len() > 0,
    ensures
        r@ == strip_leading(s@, p@),
{
    let mut cur = s;
    while starts_with_in(&cur, p)
        invariant
            p@.len() > 0,
            strip_leading(cur@, p@) == strip_leading(s@, p@),
        decreases cur@.len(),
    {
        let next = slice_vec(&cur, p.len(), cur.len());
        assert(next@ =~= cur@.skip(p@.len() as int));
        cur = next;
    }
    cur
}

/// How the button of the link `url` reads.
pub fn link_label(url: &str) -> (r: String)
    ensures
        r@ == link_label_spec(url@),
{
    let https = chars_of("https://");
    let http = chars_of("http://");
    proof {
        reveal_strlit("https://");
        reveal_strlit("http://");
    }
    let a = strip_leading_from(chars_of(url), &https);
    let mut b = strip_leading_from(a, &http);
    while b.len() > 0 && b[b.len() - 1] == '/'
        invariant
            strip_trailing(b@, '/') == link_label_spec(url@),
        decreases b@.len(),
    {
        b.pop();
    }
    string_of(&b)
}

/// The addresses of the pictures `cards` fetch, in card order.
pub open spec fn remote_urls(cards: Seq<Card>) -> Seq<Seq<char>>
    decreases cards.len(),
{
    if cards.len() == 0 {
        Seq::empty()
    } else {
        let rest = remote_urls(cards.drop_last());
        match cards.last().art {
            Art::Remote(u) => rest.push(u@),
            _ => rest,
        }
    }
}

/// The addresses of the pictures the cards shown fetch, in card order.
pub fn remote_art(cards: &[Card]) -> (r: Vec<String>)
    ensures
        texts(r@) == remote_urls(cards@),
{
    let mut r: Vec<String> = Vec::new();
    let mut i: usize = 0;
    while i < cards.len()
        invariant
            i <= cards@.len(),
            texts(r@) == remote_urls(cards@.take(i as int)),
        decreases cards@.len() - i,
    {
        assert(cards@.take(i + 1).drop_last() =~= cards@.take(i as int));
        assert(cards@.take(i + 1).last() == cards@[i as int]);
        match &cards[i].art {
            Art::Remote(u) => {
                let ghost r0 = r@;
                r.push(string_of(&chars_of(u.as_str())));
                assert(texts(r@) =~= texts(r0).push(u@));
            },
            _ => {},
        }
        i += 1;
    }
    assert(cards@.take(cards@.len() as int) =~= cards@);
    r
}

/// What the gallery knows the pictures of `cards` by, for those that have one,
/// in card order.
pub open spec fn picture_keys(cards: Seq<Card>) -> Seq<Seq<char>>
    decreases cards.len(),
{
    if cards.len() == 0 {
        Seq::empty()
    } else {
        let rest = picture_keys(cards.drop_last());
        match art_key_spec(cards.last().art) {
            Some(k) => rest.push(k),
            None => rest,
        }
    }
}

/// What the gallery knows the pictures of the cards shown by, in card order.
pub fn art_keys(cards: &[Card]) -> (r: Vec<String>)
    ensures
        texts(r@) == picture_keys(cards@),
{
    let mut r: Vec<String> = Vec::new();
    let mut i: usize = 0;
    while i < cards.len()
        invariant
            i <= cards@.len(),
            texts(r@) == picture_keys(cards@.take(i as int)),
        decreases cards@.len() - i,
    {
        assert(cards@.take(i + 1).drop_last() =~= cards@.take(i as int));
        assert(cards@.take(i + 1).last() == cards@[i as int]);
        match cards[i].art_key() {
            Some(k) => {
                let ghost r0 = r@;
                let ghost kv = k@;
                r.push(k);
                assert(texts(r@) =~= texts(r0).push(kv));
            },
            None => {},
        }
        i += 1;
    }
    assert(cards@.take(cards@.len() as int) =~= cards@);
    r
}

/// What the recommended-settings box of an open map says, and whether it is
/// the map's own list: the list when there is one; when the page was read and
/// had none, where else to look; otherwise there is no box.
pub fn settings_note(settings: Option<&str>, looked: bool) -> (r: Option<(String, bool)>)
    ensures
        settings matches Some(t) ==> (r matches Some((said, listed)) && said@ == t@ && listed),
        settings is None && looked ==> (r matches Some((said, listed)) && said@ == "Not listed here. Check the map's page, linked below."@
            && !listed),
        settings is None && !looked ==> r is None,
{
    match settings {
        Some(t) => Some((string_of(&chars_of(t)), true)),
        None => if looked {
            Some(("Not listed here. Check the map's page, linked below.".to_string(), false))
        } else {
            None
        },
    }
}
} // verus!

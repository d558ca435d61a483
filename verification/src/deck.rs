//! What the window decides when something happens: which layer a key press
//! closes, whether a click starts work, what an answer changes. The window
//! itself performs the work these decisions ask for.
use vstd::prelude::*;

use crate::fetch::Error as FetchError;
use crate::gallery::{add_text, drop_text, holds_text, lemma_add_set, lemma_without_facts, set_of, texts};
use crate::install::State;
use crate::library::{paths_equal, same_path};
use crate::model::{Shelf, Sort, Tab};
use crate::text::{chars_of, push_str, string_of};

verus! {

/// A load that waits for the user to agree to a backup.
#[derive(Debug, Clone)]
pub struct Pending {
    pub key: String,
    pub name: String,
    pub bytes: u64,
}

/// Work in progress, and the map it is about, if any.
#[derive(Debug, Clone)]
pub struct Working {
    pub map: Option<String>,
    pub label: String,
}

/// What the window shows besides the cards.
pub struct Screen {
    pub tab: Tab,
    pub query: String,
    pub menu_open: bool,
    pub hovered: Option<String>,
    pub chooser: bool,
    pub pending: Option<Pending>,
    pub working: Option<Working>,
    pub detail: Option<(usize, usize)>,
    pub local_detail: Option<String>,
    pub busy: Vec<String>,
    pub armed: Option<String>,
    pub refused: Vec<String>,
    pub notice: Option<String>,
    pub game_dir: Option<String>,
    pub loaded_map: Option<String>,
    pub sort: Sort,
    pub shelf: Shelf,
}

/// The layers a key press can close, topmost first.
pub open spec fn layers(s: &Screen) -> Seq<bool> {
    seq![s.pending is Some, s.chooser, s.detail is Some || s.local_detail is Some, s.menu_open, s.armed is Some]
}

impl Screen {
    /// Nothing in `busy` or `refused` occurs twice.
    pub open spec fn wf(&self) -> bool {
        texts(self.busy@).no_duplicates() && texts(self.refused@).no_duplicates()
    }

    /// The window as it opens: the library page, nothing open, nothing going on.
    pub fn new() -> (s: Screen)
        ensures
            s.wf(),
            s.tab == Tab::Library,
            s.query@.len() == 0,
            !s.menu_open && !s.chooser,
            s.hovered is None && s.pending is None && s.working is None,
            s.detail is None && s.local_detail is None && s.armed is None && s.notice is None,
            s.busy@.len() == 0 && s.refused@.len() == 0,
            s.game_dir is None && s.loaded_map is None,
            s.sort == Sort::MostLiked && s.shelf == Shelf::Newest,
    {
        Screen {
            tab: Tab::Library,
            query: String::new(),
            menu_open: false,
            hovered: None,
            chooser: false,
            pending: None,
            working: None,
            detail: None,
            local_detail: None,
            busy: Vec::new(),
            armed: None,
            refused: Vec::new(),
            notice: None,
            game_dir: None,
            loaded_map: None,
            sort: Sort::MostLiked,
            shelf: Shelf::Newest,
        }
    }

    /// Escape closes the topmost layer that is open, and only that one: the
    /// backup question, then the game chooser, then an open detail, then the
    /// menu, then an armed delete.
    pub fn escape(&mut self)
        ensures
            old(self).pending is Some ==> *final(self) == (Screen { pending: None, ..*old(self) }),
            old(self).pending is None && old(self).chooser ==> *final(self) == (Screen { chooser: false, ..*old(self) }),
            old(self).pending is None && !old(self).chooser && old(self).detail is Some ==> *final(self) == (Screen {
                detail: None,
                ..*old(self)
            }),
            old(self).pending is None && !old(self).chooser && old(self).detail is None && old(self).local_detail is Some
                ==> *final(self) == (Screen { local_detail: None, ..*old(self) }),
            old(self).pending is None && !old(self).chooser && old(self).detail is None && old(self).local_detail is None
                && old(self).menu_open ==> *final(self) == (Screen { menu_open: false, ..*old(self) }),
            old(self).pending is None && !old(self).chooser && old(self).detail is None && old(self).local_detail is None
                && !old(self).menu_open ==> *final(self) == (Screen { armed: None, ..*old(self) }),
    {
        if self.pending.is_some() {
            self.pending = None;
            return;
        }
        if self.chooser {
            self.chooser = false;
            return;
        }
        if self.detail.is_some() {
            self.detail = None;
            return;
        }
        if self.local_detail.is_some() {
            self.local_detail = None;
            return;
        }
        if self.menu_open {
            self.menu_open = false;
            return;
        }
        self.armed = None;
    }

    /// What the install in `dir` was found to hold. An answer about another
    /// folder than the one in use (compared part by part) is ignored; otherwise the map in the game is
    /// the one it names, if any.
    pub fn game_state(&mut self, dir: &str, state: Option<State>)
        ensures
            (old(self).game_dir matches Some(g) && same_path(g@, dir@)) ==> *final(self) == (Screen {
                loaded_map: match state {
                    Some(State::Loaded(name)) => Some(name),
                    _ => None::<String>,
                },
                ..*old(self)
            }),
            !(old(self).game_dir matches Some(g) && same_path(g@, dir@)) ==> *final(self) == *old(self),
    {
        let current = match &self.game_dir {
            Some(g) => paths_equal(g.as_str(), dir),
            None => false,
        };
        if !current {
            return;
        }
        self.loaded_map = match state {
            Some(State::Loaded(name)) => Some(name),
            _ => None,
        };
    }

    /// Whether new work must wait for the work in progress; if so, says so.
    pub fn refuse_while_working(&mut self) -> (refused: bool)
        ensures
            final(self).game_dir == old(self).game_dir,
            final(self).chooser == old(self).chooser,
            final(self).menu_open == old(self).menu_open,
            refused == old(self).working is Some,
            final(self).working == old(self).working,
            refused ==> (old(self).working matches Some(w) && final(self).notice matches Some(n) && n@ == "Still "@ + w.label@ + ". One at a time"@),
            !refused ==> final(self).notice == old(self).notice,
            final(self).busy == old(self).busy,
            final(self).pending == old(self).pending,
            final(self).loaded_map == old(self).loaded_map,
    {
        match &self.working {
            None => false,
            Some(w) => {
                let mut n = "Still ".to_string();
                push_str(&mut n, w.label.as_str());
                push_str(&mut n, ". One at a time");
                self.notice = Some(n);
                true
            },
        }
    }

    /// A click on download for the catalog map `name`, whose link is `url`. A map
    /// already downloading is left alone; one without a link says so; otherwise
    /// the download starts and the link to fetch is returned.
    pub fn begin_download(&mut self, name: &str, url: Option<String>) -> (start: Option<String>)
        requires
            old(self).wf(),
        ensures
            final(self).wf(),
            set_of(old(self).busy@).contains(name@) ==> {
                &&& start is None
                &&& final(self).notice == old(self).notice
                &&& set_of(final(self).busy@) == set_of(old(self).busy@)
            },
            !set_of(old(self).busy@).contains(name@) && url is None ==> {
                &&& start is None
                &&& final(self).notice matches Some(n) && n@ == name@ + " has no download link"@
                &&& set_of(final(self).busy@) == set_of(old(self).busy@)
            },
            !set_of(old(self).busy@).contains(name@) && url is Some ==> {
                &&& start == url
                &&& final(self).notice is None
                &&& set_of(final(self).busy@) == set_of(old(self).busy@).insert(name@)
                &&& set_of(final(self).refused@) == set_of(old(self).refused@).remove(name@)
            },
            final(self).working == old(self).working,
            final(self).loaded_map == old(self).loaded_map,
    {
        if holds_text(&self.busy, name) {
            return None;
        }
        let link = match url {
            Some(u) => u,
            None => {
                let mut n = string_of(&chars_of(name));
                push_str(&mut n, " has no download link");
                self.notice = Some(n);
                return None;
            },
        };
        let ghost b0 = self.busy@;
        let ghost r0 = self.refused@;
        add_text(&mut self.busy, name);
        drop_text(&mut self.refused, name);
        proof {
            lemma_add_set(b0, self.busy@, name@);
            lemma_without_facts(texts(r0), name@);
            assert(set_of(self.refused@) =~= set_of(r0).remove(name@));
        }
        self.notice = None;
        Some(link)
    }

    /// A download of `name` finished: it is no longer busy or refused.
    pub fn download_finished(&mut self, name: &str)
        requires
            old(self).wf(),
        ensures
            final(self).wf(),
            set_of(final(self).busy@) == set_of(old(self).busy@).remove(name@),
            set_of(final(self).refused@) == set_of(old(self).refused@).remove(name@),
            final(self).working == old(self).working,
            final(self).notice == old(self).notice,
    {
        let ghost b0 = self.busy@;
        let ghost r0 = self.refused@;
        drop_text(&mut self.busy, name);
        drop_text(&mut self.refused, name);
        proof {
            lemma_without_facts(texts(b0), name@);
            lemma_without_facts(texts(r0), name@);
            assert(set_of(self.busy@) =~= set_of(b0).remove(name@));
            assert(set_of(self.refused@) =~= set_of(r0).remove(name@));
        }
    }

    /// A download of `name` failed with `err`; `url` is its link. It is no longer
    /// busy. When the host wants a browser, the map is marked refused and, given a
    /// link, the link is returned to open in the browser.
    pub fn download_failed(&mut self, name: &str, err: &FetchError, url: Option<String>) -> (open: Option<String>)
        requires
            old(self).wf(),
        ensures
            final(self).wf(),
            set_of(final(self).busy@) == set_of(old(self).busy@).remove(name@),
            (err matches FetchError::NeedsBrowser) ==> set_of(final(self).refused@) == set_of(old(self).refused@).insert(name@),
            !(err matches FetchError::NeedsBrowser) ==> set_of(final(self).refused@) == set_of(old(self).refused@),
            (err matches FetchError::NeedsBrowser) && url is Some ==> {
                &&& open == url
                &&& final(self).notice matches Some(n) && n@ == name@ + ": opened in your browser to download"@
            },
            !((err matches FetchError::NeedsBrowser) && url is Some) ==> {
                &&& open is None
                &&& final(self).notice matches Some(n) && n@ == name@ + ": "@ + err.message_spec()
            },
            final(self).working == old(self).working,
    {
        let ghost b0 = self.busy@;
        let ghost r0 = self.refused@;
        drop_text(&mut self.busy, name);
        proof {
            lemma_without_facts(texts(b0), name@);
            assert(set_of(self.busy@) =~= set_of(b0).remove(name@));
        }
        let browser = match err {
            FetchError::NeedsBrowser => true,
            _ => false,
        };
        if browser {
            add_text(&mut self.refused, name);
            proof {
                lemma_add_set(r0, self.refused@, name@);
            }
            match url {
                Some(u) => {
                    let mut n = string_of(&chars_of(name));
                    push_str(&mut n, ": opened in your browser to download");
                    self.notice = Some(n);
                    return Some(u);
                },
                None => {},
            }
        }
        let mut n = string_of(&chars_of(name));
        push_str(&mut n, ": ");
        push_str(&mut n, err.message().as_str());
        self.notice = Some(n);
        None
    }

    /// Work starts: it is shown as in progress, and any notice goes.
    pub fn start_work(&mut self, map: Option<String>, label: String)
        ensures
            final(self).game_dir == old(self).game_dir,
            final(self).chooser == old(self).chooser,
            final(self).menu_open == old(self).menu_open,
            final(self).working matches Some(w) && w.map == map && w.label == label,
            final(self).notice is None,
            final(self).busy == old(self).busy,
            final(self).pending == old(self).pending,
            final(self).loaded_map == old(self).loaded_map,
    {
        self.working = Some(Working { map, label });
        self.notice = None;
    }

    /// Work ended.
    pub fn finished(&mut self)
        ensures
            final(self).game_dir == old(self).game_dir,
            final(self).chooser == old(self).chooser,
            final(self).menu_open == old(self).menu_open,
            final(self).working is None,
            final(self).notice == old(self).notice,
            final(self).busy == old(self).busy,
            final(self).pending == old(self).pending,
            final(self).loaded_map == old(self).loaded_map,
    {
        self.working = None;
    }

    /// Whether the work in progress is about the map `name`.
    pub fn busy_with(&self, name: &str) -> (b: bool)
        ensures
            b == (self.working matches Some(w) && w.map matches Some(m) && m@ == name@),
    {
        match &self.working {
            Some(w) => match &w.map {
                Some(m) => crate::text::same_chars(&chars_of(m.as_str()), &chars_of(name)),
                None => false,
            },
            None => false,
        }
    }

    /// Whether the spinner turns: work is in progress or a download runs.
    pub fn spinning(&self) -> (b: bool)
        ensures
            b == (self.working is Some || self.busy@.len() > 0),
    {
        self.working.is_some() || self.busy.len() > 0
    }

    /// A tab was picked: it shows, and the menu, an open detail and an armed
    /// delete close.
    pub fn select_tab(&mut self, tab: Tab)
        ensures
            final(self).tab == tab,
            final(self).armed is None,
            !final(self).menu_open,
            final(self).detail is None,
            final(self).local_detail == old(self).local_detail,
            final(self).pending == old(self).pending,
            final(self).chooser == old(self).chooser,
            final(self).working == old(self).working,
            final(self).busy == old(self).busy,
    {
        self.armed = None;
        self.tab = tab;
        self.menu_open = false;
        self.detail = None;
    }

    /// The pointer left the card `key`: it is no longer hovered, unless another
    /// card is.
    pub fn hover_end(&mut self, key: &str)
        ensures
            (old(self).hovered matches Some(h) && h@ == key@) ==> final(self).hovered is None,
            !(old(self).hovered matches Some(h) && h@ == key@) ==> final(self).hovered == old(self).hovered,
            final(self).tab == old(self).tab,
    {
        let same = match &self.hovered {
            Some(h) => crate::text::same_chars(&chars_of(h.as_str()), &chars_of(key)),
            None => false,
        };
        if same {
            self.hovered = None;
        }
    }
}

/// The picture shown after stepping `delta` from picture `current` of `count`,
/// going round at either end.
pub open spec fn stepped_spec(current: int, delta: int, count: int) -> int {
    let c = if count > 1 { count } else { 1 };
    (current + delta) % c
}

/// The picture shown after stepping `delta` from picture `current` of `count`.
pub fn stepped(current: usize, delta: i32, count: usize) -> (r: usize)
    ensures
        r == stepped_spec(current as int, delta as int, count as int),
        r < if count > 1 { count } else { 1 },
{
    let c: usize = if count > 1 { count } else { 1 };
    let cur: usize = current % c;
    proof {
        vstd::arithmetic::div_mod::lemma_mod_bound(current as int, c as int);
    }
    if delta >= 0 {
        let d: usize = (delta as u32 as usize) % c;
        proof {
            vstd::arithmetic::div_mod::lemma_mod_bound(delta as int, c as int);
            vstd::arithmetic::div_mod::lemma_add_mod_noop(current as int, delta as int, c as int);
        }
        ((cur as u128 + d as u128) % (c as u128)) as usize
    } else {
        let back: usize = ((-(delta as i64)) as u64 as usize) % c;
        proof {
            vstd::arithmetic::div_mod::lemma_mod_bound(-delta, c as int);
            vstd::arithmetic::div_mod::lemma_sub_mod_noop(current as int, -delta, c as int);
            vstd::arithmetic::div_mod::lemma_mod_add_multiples_vanish(cur - back, c as int);
        }
        ((cur as u128 + (c - back) as u128) % (c as u128)) as usize
    }
}

/// The pictures fetched around picture `shown` of `count`: it, the next and the
/// one before, going round at either end.
pub fn around(shown: usize, count: usize) -> (r: Vec<usize>)
    requires
        count > 0,
    ensures
        r@ == seq![
            ((shown + 0) % (count as int)) as usize,
            ((shown + 1) % (count as int)) as usize,
            ((shown + count - 1) % (count as int)) as usize,
        ],
{
    let s = shown as u128;
    let c = count as u128;
    let mut r: Vec<usize> = Vec::new();
    r.push((s % c) as usize);
    r.push(((s + 1) % c) as usize);
    r.push(((s + c - 1) % c) as usize);
    assert(r@ =~= seq![
        ((shown + 0) % (count as int)) as usize,
        ((shown + 1) % (count as int)) as usize,
        ((shown + count - 1) % (count as int)) as usize,
    ]);
    r
}

/// The words on the bar while files are imported: the file's name when there is
/// one, else how many.
pub fn import_label(paths: &[String]) -> (s: String)
    requires
        paths@.len() > 0,
    ensures
        paths@.len() == 1 ==> s@ == "importing "@ + crate::fetch::name_spec(paths@[0]@),
        paths@.len() != 1 ==> s@ == "importing "@ + crate::ui::decimal(paths@.len()) + " files"@,
{
    let mut s = "importing ".to_string();
    if paths.len() == 1 {
        push_str(&mut s, crate::files::name_of(paths[0].as_str()).as_str());
    } else {
        push_str(&mut s, string_of(&crate::ui::decimal_of(paths.len() as u64)).as_str());
        push_str(&mut s, " files");
    }
    s
}

/// Whether a popup shows a description below the blurb: only when there is one
/// and it says more than the blurb, blanks and case aside.
pub open spec fn distinct_body_spec(blurb: Option<Seq<char>>, body: Option<Seq<char>>) -> bool {
    match body {
        None => false,
        Some(b) => match blurb {
            None => true,
            Some(bl) => !crate::text::eq_ignore_ascii_case(crate::text::trim(b), crate::text::trim(bl)),
        },
    }
}

/// Whether a popup shows a description below the blurb.
pub fn has_distinct_body(blurb: Option<&str>, body: Option<&str>) -> (b: bool)
    ensures
        b == distinct_body_spec(crate::shelves::str_view(blurb), crate::shelves::str_view(body)),
{
    match body {
        None => false,
        Some(text) => match blurb {
            None => true,
            Some(bl) => !crate::catalog::same_ignoring_ascii_case(
                &crate::text::trimmed(&chars_of(text)),
                &crate::text::trimmed(&chars_of(bl)),
            ),
        },
    }
}

/// How long a saved catalog is used before it is fetched again: a day, in seconds.
pub const CATALOG_TTL: u64 = 86400;

/// Whether the saved catalog, fetched at `fetched`, is still good at `now`
/// (seconds since the epoch): younger than a day and not empty.
pub fn cache_is_fresh(now: u64, fetched: u64, entries: usize) -> (b: bool)
    ensures
        b == ((if now >= fetched { now - fetched } else { 0 }) < CATALOG_TTL && entries > 0),
{
    now.saturating_sub(fetched) < CATALOG_TTL && entries > 0
}

/// The game folder to use at start: the configured one when it still holds the
/// game, else the only install found, else none.
pub fn chosen_game_dir(configured: Option<String>, still_holds_game: bool, installs: &[crate::game::Install]) -> (r: Option<String>)
    ensures
        (configured is Some && still_holds_game) ==> r == configured,
        !(configured is Some && still_holds_game) && installs@.len() == 1 ==> r == Some(installs@[0].root),
        !(configured is Some && still_holds_game) && installs@.len() != 1 ==> r is None,
{
    match configured {
        Some(c) => if still_holds_game {
            return Some(c);
        },
        None => {},
    }
    if installs.len() == 1 {
        Some(installs[0].root.clone())
    } else {
        None
    }
}

impl Screen {
    /// What start-up found: the game folder in use, how many installs there
    /// are, whether the library is empty, and what the game holds. The map in the
    /// game is remembered; the chooser opens when there is no folder but a choice
    /// of installs; an empty library opens on the explore page.
    pub fn booted(&mut self, game_dir: Option<String>, installs: usize, library_empty: bool, state: Option<State>)
        ensures
            final(self).game_dir == game_dir,
            final(self).loaded_map == match state {
                Some(State::Loaded(name)) => Some(name),
                _ => old(self).loaded_map,
            },
            final(self).chooser == (old(self).chooser || (game_dir is None && installs > 1)),
            final(self).tab == if library_empty { Tab::Explore } else { old(self).tab },
            final(self).busy == old(self).busy,
            final(self).refused == old(self).refused,
    {
        let no_dir = game_dir.is_none();
        self.game_dir = game_dir;
        match state {
            Some(State::Loaded(name)) => {
                self.loaded_map = Some(name);
            },
            _ => {},
        }
        if no_dir && installs > 1 {
            self.chooser = true;
        }
        if library_empty {
            self.tab = Tab::Explore;
        }
    }
}


impl Screen {
    /// Loading a map into the game was asked for; `map_name` names the map when
    /// it is in the library. With no game folder the chooser opens; a map that
    /// is gone does nothing; work in progress refuses. Otherwise the load starts
    /// and the game folder to load into is returned.
    pub fn load_request(&mut self, map_name: Option<String>) -> (go: Option<String>)
        ensures
            old(self).game_dir is None ==> go is None && final(self).chooser && final(self).working == old(self).working
                && final(self).notice == old(self).notice,
            old(self).game_dir is Some && map_name is None ==> go is None && final(self).chooser == old(self).chooser
                && final(self).working == old(self).working && final(self).notice == old(self).notice,
            old(self).game_dir is Some && map_name is Some && old(self).working is Some ==> {
                &&& go is None
                &&& final(self).working == old(self).working
                &&& old(self).working matches Some(w) && final(self).notice matches Some(n) && n@ == "Still "@ + w.label@ + ". One at a time"@
            },
            old(self).game_dir is Some && map_name is Some && old(self).working is None ==> {
                &&& go == old(self).game_dir
                &&& final(self).working matches Some(w) && w.map == map_name
                &&& map_name matches Some(m) && (final(self).working matches Some(w) && w.label@ == "loading "@ + m@)
                &&& final(self).notice is None
            },
            old(self).game_dir is Some ==> final(self).chooser == old(self).chooser,
            final(self).game_dir == old(self).game_dir,
            final(self).pending == old(self).pending,
            final(self).loaded_map == old(self).loaded_map,
            final(self).busy == old(self).busy,
    {
        let game_dir = match &self.game_dir {
            Some(g) => g.clone(),
            None => {
                self.chooser = true;
                return None;
            },
        };
        let name = match map_name {
            Some(n) => n,
            None => return None,
        };
        if self.refuse_while_working() {
            return None;
        }
        let mut label = "loading ".to_string();
        push_str(&mut label, name.as_str());
        self.start_work(Some(name), label);
        Some(game_dir)
    }

    /// Repair was asked for: the menu closes. With no game folder the chooser
    /// opens; work in progress refuses; with nothing backed up (`has_backup`)
    /// there is nothing to put back. Otherwise putting the original back starts
    /// and the game folder is returned.
    pub fn repair(&mut self, has_backup: bool) -> (go: Option<String>)
        ensures
            !final(self).menu_open,
            old(self).game_dir is None ==> go is None && final(self).chooser && final(self).working == old(self).working
                && final(self).notice == old(self).notice,
            old(self).game_dir is Some && old(self).working is Some ==> {
                &&& go is None
                &&& final(self).working == old(self).working
                &&& old(self).working matches Some(w) && final(self).notice matches Some(n) && n@ == "Still "@ + w.label@ + ". One at a time"@
            },
            old(self).game_dir is Some && old(self).working is None && !has_backup ==> {
                &&& go is None
                &&& final(self).working is None
                &&& final(self).notice matches Some(n) && n@ == "Nothing has been replaced yet, so there is nothing to put back"@
            },
            old(self).game_dir is Some && old(self).working is None && has_backup ==> {
                &&& go == old(self).game_dir
                &&& final(self).working matches Some(w) && w.map is None && w.label@ == "putting Underpass back"@
                &&& final(self).notice is None
            },
            old(self).game_dir is Some ==> final(self).chooser == old(self).chooser,
            final(self).game_dir == old(self).game_dir,
            final(self).pending == old(self).pending,
            final(self).loaded_map == old(self).loaded_map,
            final(self).busy == old(self).busy,
    {
        self.menu_open = false;
        let game_dir = match &self.game_dir {
            Some(g) => g.clone(),
            None => {
                self.chooser = true;
                return None;
            },
        };
        if self.refuse_while_working() {
            return None;
        }
        if !has_backup {
            self.notice = Some("Nothing has been replaced yet, so there is nothing to put back".to_string());
            return None;
        }
        self.start_work(None, "putting Underpass back".to_string());
        Some(game_dir)
    }

    /// Putting the original back ended, well or with the error `outcome` holds.
    pub fn restored(&mut self, outcome: Result<(), String>)
        ensures
            final(self).working is None,
            outcome is Ok ==> final(self).loaded_map is None && (final(self).notice matches Some(n) && n@ == "Underpass is back to normal"@),
            outcome matches Err(e) ==> final(self).loaded_map == old(self).loaded_map
                && (final(self).notice matches Some(n) && n@ == "Could not restore Underpass: "@ + e@),
            final(self).game_dir == old(self).game_dir,
            final(self).pending == old(self).pending,
            final(self).busy == old(self).busy,
    {
        self.finished();
        match outcome {
            Ok(()) => {
                self.loaded_map = None;
                self.notice = Some("Underpass is back to normal".to_string());
            },
            Err(e) => {
                let mut n = "Could not restore Underpass: ".to_string();
                push_str(&mut n, e.as_str());
                self.notice = Some(n);
            },
        }
    }

    /// The map `name` is now in the game.
    pub fn swap_done(&mut self, name: String)
        ensures
            final(self).working is None,
            final(self).loaded_map == Some(name),
            final(self).notice matches Some(n) && n@ == name@ + " is loaded. Start Rocket League and play Underpass in a private match"@,
            final(self).game_dir == old(self).game_dir,
            final(self).pending == old(self).pending,
            final(self).busy == old(self).busy,
    {
        self.finished();
        let mut n = string_of(&chars_of(name.as_str()));
        push_str(&mut n, " is loaded. Start Rocket League and play Underpass in a private match");
        self.loaded_map = Some(name);
        self.notice = Some(n);
    }

    /// The load stopped to ask whether the level found may be backed up.
    pub fn swap_needs_confirmation(&mut self, pending: Pending)
        ensures
            final(self).working is None,
            final(self).pending == Some(pending),
            final(self).notice == old(self).notice,
            final(self).loaded_map == old(self).loaded_map,
            final(self).busy == old(self).busy,
    {
        self.finished();
        self.pending = Some(pending);
    }

    /// The load failed, for the reason `message` gives.
    pub fn swap_failed(&mut self, message: String)
        ensures
            final(self).working is None,
            final(self).notice == Some(message),
            final(self).pending == old(self).pending,
            final(self).loaded_map == old(self).loaded_map,
            final(self).busy == old(self).busy,
    {
        self.finished();
        self.notice = Some(message);
    }

    /// The user agreed to the backup: the question closes and the key of the map
    /// to load again, now confirmed, is returned.
    pub fn backup_confirmed(&mut self) -> (key: Option<String>)
        ensures
            final(self).pending is None,
            key == match old(self).pending {
                Some(p) => Some(p.key),
                None => None::<String>,
            },
            final(self).working == old(self).working,
            final(self).notice == old(self).notice,
    {
        match self.pending.take() {
            Some(p) => Some(p.key),
            None => None,
        }
    }

    /// The game chooser was asked for from the menu.
    pub fn choose_game(&mut self)
        ensures
            !final(self).menu_open,
            final(self).chooser,
            final(self).pending == old(self).pending,
            final(self).notice == old(self).notice,
    {
        self.menu_open = false;
        self.chooser = true;
    }

    /// The game folder in use is now `root`; what it holds is not known yet.
    pub fn use_game_dir(&mut self, root: String)
        ensures
            final(self).game_dir == Some(root),
            final(self).loaded_map is None,
            final(self).notice matches Some(n) && n@ == "Loading maps into "@ + root@,
            final(self).working == old(self).working,
            final(self).pending == old(self).pending,
    {
        let mut n = "Loading maps into ".to_string();
        push_str(&mut n, root.as_str());
        self.game_dir = Some(root);
        self.loaded_map = None;
        self.notice = Some(n);
    }

    /// A folder `picked` was offered as the game's: `root` is the install found
    /// from it, if any. Found, the chooser closes and the install is returned to
    /// use; not found, the user is told where to look.
    pub fn game_folder_picked(&mut self, picked: &str, root: Option<String>) -> (use_root: Option<String>)
        ensures
            use_root == root,
            root is Some ==> !final(self).chooser && final(self).notice == old(self).notice,
            root is None ==> final(self).chooser == old(self).chooser && (final(self).notice matches Some(n)
                && n@ == "No Rocket League in "@ + picked@ + ". Look for the folder with TAGame inside it"@),
            final(self).game_dir == old(self).game_dir,
            final(self).working == old(self).working,
    {
        match root {
            Some(r) => {
                self.chooser = false;
                Some(r)
            },
            None => {
                let mut n = "No Rocket League in ".to_string();
                push_str(&mut n, picked);
                push_str(&mut n, ". Look for the folder with TAGame inside it");
                self.notice = Some(n);
                None
            },
        }
    }

    /// A folder `dir` was picked for the library; `made` says whether it could be
    /// made. It becomes the library, shown on the library page, or the user is
    /// told why not. Whether it was taken is returned.
    pub fn library_folder_picked(&mut self, dir: &str, made: Result<(), String>) -> (taken: bool)
        ensures
            taken == made is Ok,
            made is Ok ==> final(self).tab == Tab::Library && (final(self).notice matches Some(n) && n@ == "Maps now come from "@ + dir@),
            made matches Err(e) ==> final(self).tab == old(self).tab && (final(self).notice matches Some(n)
                && n@ == "Cannot use that folder: "@ + e@),
            final(self).working == old(self).working,
            final(self).game_dir == old(self).game_dir,
    {
        match made {
            Ok(()) => {
                let mut n = "Maps now come from ".to_string();
                push_str(&mut n, dir);
                self.tab = Tab::Library;
                self.notice = Some(n);
                true
            },
            Err(e) => {
                let mut n = "Cannot use that folder: ".to_string();
                push_str(&mut n, e.as_str());
                self.notice = Some(n);
                false
            },
        }
    }

    /// An import ended with the report `notice`: the library page shows it.
    pub fn imported(&mut self, notice: String)
        ensures
            final(self).working is None,
            final(self).tab == Tab::Library,
            final(self).notice == Some(notice),
            final(self).pending == old(self).pending,
            final(self).loaded_map == old(self).loaded_map,
    {
        self.finished();
        self.tab = Tab::Library;
        self.notice = Some(notice);
    }

    /// Deleting the map called `name` (None when no map has that key) was
    /// confirmed: the armed delete goes. A map in the game is not deleted; the
    /// user is told to repair first. Whether to delete is returned.
    pub fn delete_request(&mut self, name: Option<String>) -> (go: bool)
        ensures
            final(self).armed is None,
            match name {
                None => !go && final(self).notice == old(self).notice,
                Some(n) => if (old(self).loaded_map matches Some(l) && l@ == n@) {
                    !go && (final(self).notice matches Some(m) && m@ == n@ + " is in the game. Press Repair first, then delete it"@)
                } else {
                    go && final(self).notice == old(self).notice
                },
            },
            final(self).loaded_map == old(self).loaded_map,
            final(self).working == old(self).working,
    {
        self.armed = None;
        let n = match name {
            Some(n) => n,
            None => return false,
        };
        let in_game = match &self.loaded_map {
            Some(l) => crate::text::same_chars(&chars_of(l.as_str()), &chars_of(n.as_str())),
            None => false,
        };
        if in_game {
            let mut m = string_of(&chars_of(n.as_str()));
            push_str(&mut m, " is in the game. Press Repair first, then delete it");
            self.notice = Some(m);
            return false;
        }
        true
    }

    /// Deleting the map called `name` ended, well or with the error `outcome`
    /// holds.
    pub fn deleted(&mut self, name: &str, outcome: Result<(), String>)
        ensures
            outcome is Ok ==> (final(self).notice matches Some(n) && n@ == "Deleted "@ + name@),
            outcome matches Err(e) ==> final(self).notice == Some(e),
            final(self).loaded_map == old(self).loaded_map,
            final(self).working == old(self).working,
    {
        match outcome {
            Ok(()) => {
                let mut n = "Deleted ".to_string();
                push_str(&mut n, name);
                self.notice = Some(n);
            },
            Err(e) => {
                self.notice = Some(e);
            },
        }
    }

    /// A download of `name` arrived: it is no longer busy or refused, and the
    /// user is told.
    pub fn fetched(&mut self, name: &str)
        requires
            old(self).wf(),
        ensures
            final(self).wf(),
            set_of(final(self).busy@) == set_of(old(self).busy@).remove(name@),
            set_of(final(self).refused@) == set_of(old(self).refused@).remove(name@),
            final(self).notice matches Some(n) && n@ == name@ + " added to your library"@,
            final(self).working == old(self).working,
    {
        self.download_finished(name);
        let mut n = string_of(&chars_of(name));
        push_str(&mut n, " added to your library");
        self.notice = Some(n);
    }

    /// The catalog map at `index` opens, on its first picture.
    pub fn open_detail(&mut self, index: usize)
        ensures
            final(self).detail == Some((index, 0usize)),
            final(self).local_detail is None,
            final(self).pending == old(self).pending,
    {
        self.local_detail = None;
        self.detail = Some((index, 0));
    }

    /// The library map `key` opens.
    pub fn open_local(&mut self, key: String)
        ensures
            final(self).detail is None,
            final(self).local_detail == Some(key),
            final(self).pending == old(self).pending,
    {
        self.detail = None;
        self.local_detail = Some(key);
    }

    /// The open detail moves `delta` pictures on, among `count`, going round at
    /// either end. The map and the picture now shown are returned.
    pub fn step_image(&mut self, delta: i32, count: usize) -> (now: Option<(usize, usize)>)
        ensures
            old(self).detail is None ==> now is None && final(self).detail is None,
            old(self).detail matches Some((index, current)) ==> {
                &&& now matches Some((i, shown)) && i == index && shown == stepped_spec(current as int, delta as int, count as int)
                &&& final(self).detail == now
            },
            final(self).local_detail == old(self).local_detail,
    {
        match self.detail {
            None => None,
            Some((index, current)) => {
                let shown = stepped(current, delta, count);
                self.detail = Some((index, shown));
                Some((index, shown))
            },
        }
    }

    /// Settings could not be saved, for the reason `reason` gives.
    pub fn save_failed(&mut self, reason: &str)
        ensures
            final(self).notice matches Some(n) && n@ == "Could not save settings: "@ + reason@,
            final(self).working == old(self).working,
    {
        let mut n = "Could not save settings: ".to_string();
        push_str(&mut n, reason);
        self.notice = Some(n);
    }
}

/// What the user is told when importing a folder ended: the map added, or why not.
pub fn folder_import_report(outcome: Result<String, String>) -> (s: String)
    ensures
        outcome matches Ok(name) ==> s@ == "Added "@ + name@,
        outcome matches Err(e) ==> s@ == "Could not import that folder: "@ + e@,
{
    match outcome {
        Ok(name) => {
            let mut s = "Added ".to_string();
            push_str(&mut s, name.as_str());
            s
        },
        Err(e) => {
            let mut s = "Could not import that folder: ".to_string();
            push_str(&mut s, e.as_str());
            s
        },
    }
}


/// What a file dialog is opened for.
#[derive(Debug, Clone, Copy, PartialEq, Eq, Structural)]
pub enum Pick {
    GameFolder,
    LibraryFolder,
    MapFiles,
    MapFolder,
}

/// The question a file dialog asks.
pub open spec fn prompt_spec(p: Pick) -> Seq<char> {
    match p {
        Pick::GameFolder => "Where is Rocket League installed?"@,
        Pick::LibraryFolder => "Where should maps be kept?"@,
        Pick::MapFiles => "Add maps to your library"@,
        Pick::MapFolder => "Pick a folder holding a map"@,
    }
}

impl Pick {
    /// The question the dialog asks.
    pub fn prompt(self) -> (r: &'static str)
        ensures
            r@ == prompt_spec(self),
    {
        proof {
            reveal_strlit("Where is Rocket League installed?");
            reveal_strlit("Where should maps be kept?");
            reveal_strlit("Add maps to your library");
            reveal_strlit("Pick a folder holding a map");
        }
        match self {
            Pick::GameFolder => "Where is Rocket League installed?",
            Pick::LibraryFolder => "Where should maps be kept?",
            Pick::MapFiles => "Add maps to your library",
            Pick::MapFolder => "Pick a folder holding a map",
        }
    }
}

} // verus!

//! The cards each page shows, in the order it shows them.
use vstd::prelude::*;

use crate::catalog::{plain_text_spec, same_ignoring_ascii_case, Entry};
use crate::config::Config;
use crate::library::LocalMap;
use crate::matching::{catalog_star_key, opt_view};
use crate::model::{from_catalog, from_library, matches_spec, Art, Card, Query, Shelf, Sort, Source};
use crate::order::{key_view, key_views, stable_order, stably_sorted, SortKey};
use crate::text::{chars_of, eq_ignore_ascii_case, lowercase, to_lowercase, trim};

verus! {

/// The text `o` holds, if any.
pub open spec fn str_view(o: Option<&str>) -> Option<Seq<char>> {
    match o {
        Some(n) => Some(n@),
        None => None,
    }
}

/// `c` is the card of the library map `m`, with `loaded` the map in the game.
pub open spec fn library_card(c: Card, m: LocalMap, loaded: Option<Seq<char>>) -> bool {
    &&& c.key@ == m.home_spec()
    &&& c.name@ == m.name@
    &&& opt_view(c.author) == opt_view(m.author)
    &&& c.blurb is None
    &&& c.source == Source::Local
    &&& match m.image {
        Some(p) => c.art matches Art::File(q) && q@ == p@,
        None => c.art is Absent,
    }
    &&& c.loaded == (loaded matches Some(n) && n == m.name@)
    &&& c.catalog_index is None
}

/// Whether the library map `m` is on the shelf: the starred shelf holds only
/// starred maps.
pub open spec fn on_shelf(m: LocalMap, stars: Set<Seq<char>>, shelf: Shelf) -> bool {
    shelf != Shelf::Starred || stars.contains(m.home_spec())
}

/// The positions of the maps on the shelf, in order.
pub open spec fn shelf_positions(maps: Seq<LocalMap>, stars: Set<Seq<char>>, shelf: Shelf) -> Seq<usize>
    decreases maps.len(),
{
    if maps.len() == 0 {
        Seq::empty()
    } else {
        let rest = shelf_positions(maps.drop_last(), stars, shelf);
        if on_shelf(maps.last(), stars, shelf) {
            rest.push((maps.len() - 1) as usize)
        } else {
            rest
        }
    }
}

/// What the library is ordered by: the map in the game first, then maps with a
/// date, newest first (oldest first on the oldest shelf), then by name, case aside.
pub open spec fn shelf_key(m: LocalMap, loaded: Option<Seq<char>>, shelf: Shelf) -> (Seq<u128>, Seq<char>) {
    let first: u128 = if loaded matches Some(n) && n == m.name@ { 0 } else { 1 };
    let undated: u128 = if m.saved is None { 1 } else { 0 };
    let when: u128 = match m.saved {
        Some(t) => if shelf == Shelf::Oldest { t } else { (u128::MAX - t) as u128 },
        None => 0,
    };
    (seq![first, undated, when], lowercase(m.name@))
}

/// The maps of `ms` that show for the search `q`, in order.
pub open spec fn searched_maps(ms: Seq<LocalMap>, q: Seq<char>) -> Seq<LocalMap>
    decreases ms.len(),
{
    if ms.len() == 0 {
        Seq::empty()
    } else {
        let rest = searched_maps(ms.drop_last(), q);
        if matches_spec(ms.last().name@, opt_view(ms.last().author), q) {
            rest.push(ms.last())
        } else {
            rest
        }
    }
}

/// The library's cards are those of the maps on the shelf, ordered by
/// `shelf_key` keeping equal keys in library order, that show for the search.
pub open spec fn library_shown(
    maps: Seq<LocalMap>,
    stars: Set<Seq<char>>,
    loaded: Option<Seq<char>>,
    shelf: Shelf,
    q: Seq<char>,
    order: Seq<usize>,
    r: Seq<Card>,
) -> bool {
    let kept = shelf_positions(maps, stars, shelf);
    let keys = Seq::new(kept.len(), |j: int| shelf_key(maps[kept[j] as int], loaded, shelf));
    let ordered = Seq::new(order.len(), |k: int| maps[kept[order[k] as int] as int]);
    let shown = searched_maps(ordered, q);
    &&& stably_sorted(keys, order)
    &&& r.len() == shown.len()
    &&& forall|k: int| 0 <= k < r.len() ==> library_card(#[trigger] r[k], shown[k], loaded)
}

fn shelf_key_of(m: &LocalMap, loaded: Option<&str>, shelf: Shelf) -> (k: SortKey)
    ensures
        key_view(k) == shelf_key(*m, str_view(loaded), shelf),
{
    let is_loaded = match loaded {
        Some(n) => crate::text::same_chars(&chars_of(n), &chars_of(m.name.as_str())),
        None => false,
    };
    let first: u128 = if is_loaded { 0 } else { 1 };
    let undated: u128 = if m.saved.is_none() { 1 } else { 0 };
    let when: u128 = match m.saved {
        Some(t) => if shelf == Shelf::Oldest { t } else { u128::MAX - t },
        None => 0,
    };
    let mut nums: Vec<u128> = Vec::new();
    nums.push(first);
    nums.push(undated);
    nums.push(when);
    let k = SortKey { nums, text: chars_of(to_lowercase(m.name.as_str()).as_str()) };
    assert(k.nums@ =~= seq![first, undated, when]);
    k
}

/// The cards of the library page: the maps on the shelf, the one in the game
/// first, then by date and name, those that show for the search.
pub fn library_cards(maps: &Vec<LocalMap>, config: &Config, loaded: Option<&str>, shelf: Shelf, query: &Query) -> (r: Vec<Card>)
    ensures
        exists|order: Seq<usize>| #[trigger] library_shown(
            maps@,
            config.stars(),
            str_view(loaded),
            shelf,
            query@,
            order,
            r@,
        ),
{
    let ghost lv: Option<Seq<char>> = str_view(loaded);
    let mut kept: Vec<usize> = Vec::new();
    let mut i: usize = 0;
    while i < maps.len()
        invariant
            i <= maps@.len(),
            kept@ == shelf_positions(maps@.take(i as int), config.stars(), shelf),
            forall|j: int| 0 <= j < kept@.len() ==> #[trigger] kept@[j] < i,
        decreases maps@.len() - i,
    {
        assert(maps@.take(i + 1).drop_last() =~= maps@.take(i as int));
        assert(maps@.take(i + 1).last() == maps@[i as int]);
        let keep = match shelf {
            Shelf::Starred => config.is_starred(maps[i].key().as_str()),
            _ => true,
        };
        if keep {
            kept.push(i);
        }
        i += 1;
    }
    assert(maps@.take(maps@.len() as int) =~= maps@);
    let ghost kp = kept@;
    let mut keys: Vec<SortKey> = Vec::new();
    let mut j: usize = 0;
    while j < kept.len()
        invariant
            j <= kept@.len(),
            kp == kept@,
            forall|x: int| 0 <= x < kept@.len() ==> #[trigger] kept@[x] < maps@.len(),
            keys@.len() == j,
            lv == str_view(loaded),
            forall|x: int| 0 <= x < j ==> key_view(#[trigger] keys@[x]) == shelf_key(maps@[kept@[x] as int], lv, shelf),
        decreases kept@.len() - j,
    {
        keys.push(shelf_key_of(&maps[kept[j]], loaded, shelf));
        j += 1;
    }
    let ghost keyseq = Seq::new(kp.len(), |x: int| shelf_key(maps@[kp[x] as int], lv, shelf));
    assert(key_views(keys@) =~= keyseq);
    let order = stable_order(&keys);
    let ghost ordered = Seq::new(order@.len(), |k: int| maps@[kp[order@[k] as int] as int]);
    let mut r: Vec<Card> = Vec::new();
    let mut k: usize = 0;
    assert(ordered.take(0) =~= Seq::<LocalMap>::empty());
    while k < order.len()
        invariant
            k <= order@.len(),
            order@.len() == kp.len(),
            kp == kept@,
            forall|x: int| 0 <= x < order@.len() ==> #[trigger] order@[x] < kp.len(),
            forall|x: int| 0 <= x < kept@.len() ==> #[trigger] kept@[x] < maps@.len(),
            ordered == Seq::new(order@.len(), |k: int| maps@[kp[order@[k] as int] as int]),
            lv == str_view(loaded),
            r@.len() == searched_maps(ordered.take(k as int), query@).len(),
            forall|x: int| 0 <= x < r@.len() ==> library_card(#[trigger] r@[x], searched_maps(ordered.take(k as int), query@)[x], lv),
        decreases order@.len() - k,
    {
        let m = &maps[kept[order[k]]];
        let ghost before = searched_maps(ordered.take(k as int), query@);
        assert(ordered.take(k + 1).drop_last() =~= ordered.take(k as int));
        assert(ordered.take(k + 1).last() == *m);
        let card = from_library(m, loaded);
        if card.matches(query) {
            r.push(card);
            assert(searched_maps(ordered.take(k + 1), query@) == before.push(*m));
        }
        k += 1;
    }
    assert(ordered.take(order@.len() as int) =~= ordered);
    assert(library_shown(maps@, config.stars(), lv, shelf, query@, order@, r@));
    r
}

/// `c` is the card of catalog entry `e`, which stands at `i` in the catalog.
pub open spec fn catalog_card(c: Card, e: Entry, i: int) -> bool {
    &&& c.key@ == e.name@
    &&& c.name@ == e.name@
    &&& opt_view(c.author) == Some("Lethamyr"@)
    &&& opt_view(c.blurb) == match e.description_short {
        Some(d) => Some(plain_text_spec(d@)),
        None => None,
    }
    &&& c.source == Source::Catalog
    &&& (e.media@.len() == 0 ==> c.art is Absent)
    &&& (e.media@.len() > 0 ==> (c.art matches Art::Remote(u) && u@ == e.media@[0]@))
    &&& !c.loaded
    &&& c.catalog_index == Some(i as usize)
}

/// Whether a map called `name` is in the library already, case aside.
pub open spec fn in_library(name: Seq<char>, library: Seq<LocalMap>) -> bool {
    exists|j: int| 0 <= j < library.len() && eq_ignore_ascii_case(#[trigger] library[j].name@, name)
}

/// Whether catalog entry `e` is offered: not already in the library, and
/// starred when only starred maps are asked for.
pub open spec fn offered(e: Entry, stars: Set<Seq<char>>, sort: Sort, library: Seq<LocalMap>) -> bool {
    &&& (sort != Sort::Starred || stars.contains("catalog:"@ + lowercase(trim(e.name@))))
    &&& !in_library(e.name@, library)
}

/// The positions of the entries offered, in catalog order.
pub open spec fn offered_positions(catalog: Seq<Entry>, stars: Set<Seq<char>>, sort: Sort, library: Seq<LocalMap>) -> Seq<usize>
    decreases catalog.len(),
{
    if catalog.len() == 0 {
        Seq::empty()
    } else {
        let rest = offered_positions(catalog.drop_last(), stars, sort, library);
        if offered(catalog.last(), stars, sort, library) {
            rest.push((catalog.len() - 1) as usize)
        } else {
            rest
        }
    }
}

/// What the catalog is ordered by: most likes, most downloads, or newest
/// (latest in the catalog) first.
pub open spec fn sort_key(e: Entry, i: int, sort: Sort) -> (Seq<u128>, Seq<char>) {
    let n: u128 = match sort {
        Sort::MostLiked => (u64::MAX - e.counts.likes) as u128,
        Sort::MostDownloaded => (u64::MAX - e.counts.downloads) as u128,
        _ => (u64::MAX - i) as u128,
    };
    (seq![n], Seq::empty())
}

/// The positions of `ps` whose entries show for the search `q`, in order.
pub open spec fn searched_entries(catalog: Seq<Entry>, ps: Seq<usize>, q: Seq<char>) -> Seq<usize>
    decreases ps.len(),
{
    if ps.len() == 0 {
        Seq::empty()
    } else {
        let rest = searched_entries(catalog, ps.drop_last(), q);
        if matches_spec(catalog[ps.last() as int].name@, Some("Lethamyr"@), q) {
            rest.push(ps.last())
        } else {
            rest
        }
    }
}

/// The catalog's cards are those of the entries offered, ordered by `sort_key`
/// keeping equal keys in catalog order, that show for the search.
pub open spec fn explore_shown(
    catalog: Seq<Entry>,
    stars: Set<Seq<char>>,
    sort: Sort,
    library: Seq<LocalMap>,
    q: Seq<char>,
    order: Seq<usize>,
    r: Seq<Card>,
) -> bool {
    let kept = offered_positions(catalog, stars, sort, library);
    let keys = Seq::new(kept.len(), |j: int| sort_key(catalog[kept[j] as int], kept[j] as int, sort));
    let ordered = Seq::new(order.len(), |k: int| kept[order[k] as int]);
    let shown = searched_entries(catalog, ordered, q);
    &&& stably_sorted(keys, order)
    &&& r.len() == shown.len()
    &&& forall|k: int| 0 <= k < r.len() ==> catalog_card(#[trigger] r[k], catalog[shown[k] as int], shown[k] as int)
}

/// Whether a map called `name` is in the library already.
fn in_library_now(name: &str, library: &Vec<LocalMap>) -> (b: bool)
    ensures
        b == in_library(name@, library@),
{
    let target = chars_of(name);
    let mut j: usize = 0;
    while j < library.len()
        invariant
            j <= library@.len(),
            target@ == name@,
            forall|x: int| 0 <= x < j ==> !eq_ignore_ascii_case(#[trigger] library@[x].name@, name@),
        decreases library@.len() - j,
    {
        if same_ignoring_ascii_case(&chars_of(library[j].name.as_str()), &target) {
            return true;
        }
        j += 1;
    }
    false
}

/// The key of the first library map called `name`, case aside, if any.
pub fn key_of_named(name: &str, library: &Vec<LocalMap>) -> (k: Option<String>)
    ensures
        k is None <==> !in_library(name@, library@),
        k matches Some(key) ==> exists|j: int|
            0 <= j < library@.len() && eq_ignore_ascii_case(#[trigger] library@[j].name@, name@) && key@ == library@[j].home_spec()
                && forall|x: int| 0 <= x < j ==> !eq_ignore_ascii_case(#[trigger] library@[x].name@, name@),
{
    let target = chars_of(name);
    let mut j: usize = 0;
    while j < library.len()
        invariant
            j <= library@.len(),
            target@ == name@,
            forall|x: int| 0 <= x < j ==> !eq_ignore_ascii_case(#[trigger] library@[x].name@, name@),
        decreases library@.len() - j,
    {
        if same_ignoring_ascii_case(&chars_of(library[j].name.as_str()), &target) {
            return Some(library[j].key());
        }
        j += 1;
    }
    None
}

/// Whether `key` is the name of a catalog map: a click on its card downloads
/// it, where a click on a library card loads the map into the game.
pub fn is_catalog_name(key: &str, catalog: &[Entry]) -> (b: bool)
    ensures
        b == exists|j: int| 0 <= j < catalog@.len() && (#[trigger] catalog@[j]).name@ == key@,
{
    let target = chars_of(key);
    let mut j: usize = 0;
    while j < catalog.len()
        invariant
            j <= catalog@.len(),
            target@ == key@,
            forall|x: int| 0 <= x < j ==> (#[trigger] catalog@[x]).name@ != key@,
        decreases catalog@.len() - j,
    {
        if crate::text::same_chars(&chars_of(catalog[j].name.as_str()), &target) {
            return true;
        }
        j += 1;
    }
    false
}

/// The position of the first library map whose key is `key`, if any.
pub fn find_map(key: &str, library: &Vec<LocalMap>) -> (r: Option<usize>)
    ensures
        r is None <==> forall|j: int| 0 <= j < library@.len() ==> (#[trigger] library@[j]).home_spec() != key@,
        r matches Some(i) ==> i < library@.len() && library@[i as int].home_spec() == key@
            && forall|j: int| 0 <= j < i ==> (#[trigger] library@[j]).home_spec() != key@,
{
    let target = chars_of(key);
    let mut j: usize = 0;
    while j < library.len()
        invariant
            j <= library@.len(),
            target@ == key@,
            forall|x: int| 0 <= x < j ==> (#[trigger] library@[x]).home_spec() != key@,
        decreases library@.len() - j,
    {
        if crate::text::same_chars(&chars_of(library[j].home()), &target) {
            return Some(j);
        }
        j += 1;
    }
    None
}

/// The cards of the explore page: the entries offered, ordered as asked, those
/// that show for the search.
pub fn explore_cards(catalog: &Vec<Entry>, config: &Config, library: &Vec<LocalMap>, sort: Sort, query: &Query) -> (r: Vec<Card>)
    requires
        catalog@.len() <= u64::MAX,
    ensures
        exists|order: Seq<usize>| #[trigger] explore_shown(catalog@, config.stars(), sort, library@, query@, order, r@),
{
    let mut kept: Vec<usize> = Vec::new();
    let mut i: usize = 0;
    while i < catalog.len()
        invariant
            i <= catalog@.len(),
            kept@ == offered_positions(catalog@.take(i as int), config.stars(), sort, library@),
            forall|j: int| 0 <= j < kept@.len() ==> #[trigger] kept@[j] < i,
        decreases catalog@.len() - i,
    {
        assert(catalog@.take(i + 1).drop_last() =~= catalog@.take(i as int));
        assert(catalog@.take(i + 1).last() == catalog@[i as int]);
        let starred_ok = match sort {
            Sort::Starred => config.is_starred(catalog_star_key(catalog[i].name.as_str()).as_str()),
            _ => true,
        };
        if starred_ok && !in_library_now(catalog[i].name.as_str(), library) {
            kept.push(i);
        }
        i += 1;
    }
    assert(catalog@.take(catalog@.len() as int) =~= catalog@);
    let ghost kp = kept@;
    let mut keys: Vec<SortKey> = Vec::new();
    let mut j: usize = 0;
    while j < kept.len()
        invariant
            j <= kept@.len(),
            kp == kept@,
            catalog@.len() <= u64::MAX,
            forall|x: int| 0 <= x < kept@.len() ==> #[trigger] kept@[x] < catalog@.len(),
            keys@.len() == j,
            forall|x: int| 0 <= x < j ==> key_view(#[trigger] keys@[x]) == sort_key(catalog@[kept@[x] as int], kept@[x] as int, sort),
        decreases kept@.len() - j,
    {
        let at = kept[j];
        let e = &catalog[at];
        let n: u128 = match sort {
            Sort::MostLiked => (u64::MAX - e.counts.likes) as u128,
            Sort::MostDownloaded => (u64::MAX - e.counts.downloads) as u128,
            _ => (u64::MAX - at as u64) as u128,
        };
        let mut nums: Vec<u128> = Vec::new();
        nums.push(n);
        let key = SortKey { nums, text: Vec::new() };
        assert(key_view(key) =~= sort_key(catalog@[at as int], at as int, sort));
        keys.push(key);
        j += 1;
    }
    let ghost keyseq = Seq::new(kp.len(), |x: int| sort_key(catalog@[kp[x] as int], kp[x] as int, sort));
    assert(key_views(keys@) =~= keyseq);
    let order = stable_order(&keys);
    let ghost ordered = Seq::new(order@.len(), |k: int| kp[order@[k] as int]);
    let mut r: Vec<Card> = Vec::new();
    let mut k: usize = 0;
    assert(ordered.take(0) =~= Seq::<usize>::empty());
    while k < order.len()
        invariant
            k <= order@.len(),
            order@.len() == kp.len(),
            kp == kept@,
            forall|x: int| 0 <= x < order@.len() ==> #[trigger] order@[x] < kp.len(),
            forall|x: int| 0 <= x < kept@.len() ==> #[trigger] kept@[x] < catalog@.len(),
            ordered == Seq::new(order@.len(), |k: int| kp[order@[k] as int]),
            r@.len() == searched_entries(catalog@, ordered.take(k as int), query@).len(),
            forall|x: int| 0 <= x < r@.len() ==> catalog_card(
                #[trigger] r@[x],
                catalog@[searched_entries(catalog@, ordered.take(k as int), query@)[x] as int],
                searched_entries(catalog@, ordered.take(k as int), query@)[x] as int,
            ),
        decreases order@.len() - k,
    {
        let at = kept[order[k]];
        let ghost before = searched_entries(catalog@, ordered.take(k as int), query@);
        assert(ordered.take(k + 1).drop_last() =~= ordered.take(k as int));
        assert(ordered.take(k + 1).last() == at);
        let card = from_catalog(&catalog[at], at);
        if card.matches(query) {
            r.push(card);
            assert(searched_entries(catalog@, ordered.take(k + 1), query@) == before.push(at));
        }
        k += 1;
    }
    assert(ordered.take(order@.len() as int) =~= ordered);
    assert(explore_shown(catalog@, config.stars(), sort, library@, query@, order@, r@));
    r
}

/// Whether map `m` is the one in the game.
pub open spec fn in_game(m: LocalMap, loaded: Option<Seq<char>>) -> bool {
    loaded matches Some(n) && n == m.name@
}

proof fn lemma_searched_from(ms: Seq<LocalMap>, q: Seq<char>)
    ensures
        forall|k: int| 0 <= k < searched_maps(ms, q).len() ==> ms.contains(#[trigger] searched_maps(ms, q)[k]),
    decreases ms.len(),
{
    if ms.len() > 0 {
        lemma_searched_from(ms.drop_last(), q);
        let rest = searched_maps(ms.drop_last(), q);
        assert forall|k: int| 0 <= k < searched_maps(ms, q).len() implies ms.contains(#[trigger] searched_maps(ms, q)[k]) by {
            if k < rest.len() {
                assert(searched_maps(ms, q)[k] == rest[k]);
                assert(ms.drop_last().contains(rest[k]));
                let w = choose|w: int| 0 <= w < ms.drop_last().len() && ms.drop_last()[w] == rest[k];
                assert(ms[w] == rest[k]);
            } else {
                assert(ms[ms.len() - 1] == searched_maps(ms, q)[k]);
            }
        }
    }
}

proof fn lemma_searched_keeps_game_first(ms: Seq<LocalMap>, q: Seq<char>, loaded: Option<Seq<char>>)
    requires
        forall|i: int, j: int| 0 <= i < j < ms.len() && in_game(#[trigger] ms[j], loaded) ==> in_game(#[trigger] ms[i], loaded),
    ensures
        ({
            let s = searched_maps(ms, q);
            forall|i: int, j: int| 0 <= i < j < s.len() && in_game(#[trigger] s[j], loaded) ==> in_game(#[trigger] s[i], loaded)
        }),
    decreases ms.len(),
{
    if ms.len() > 0 {
        let d = ms.drop_last();
        assert forall|i: int, j: int| 0 <= i < j < d.len() && in_game(#[trigger] d[j], loaded) implies in_game(#[trigger] d[i], loaded) by {
            assert(d[j] == ms[j] && d[i] == ms[i]);
        }
        lemma_searched_keeps_game_first(d, q, loaded);
        lemma_searched_from(d, q);
        let rest = searched_maps(d, q);
        let s = searched_maps(ms, q);
        assert forall|i: int, j: int| 0 <= i < j < s.len() && in_game(#[trigger] s[j], loaded) implies in_game(#[trigger] s[i], loaded) by {
            if j < rest.len() {
                assert(s[j] == rest[j] && s[i] == rest[i]);
            } else {
                assert(s[j] == ms[ms.len() - 1]);
                assert(s[i] == rest[i]);
                assert(d.contains(rest[i]));
                let w = choose|w: int| 0 <= w < d.len() && d[w] == rest[i];
                assert(ms[w] == rest[i]);
            }
        }
    }
}

/// The map in the game is the first card of the library, whatever the shelf
/// and the search: no card comes before it that is not in the game.
pub proof fn the_game_map_leads_the_library(
    maps: Seq<LocalMap>,
    stars: Set<Seq<char>>,
    loaded: Option<Seq<char>>,
    shelf: Shelf,
    q: Seq<char>,
    order: Seq<usize>,
    r: Seq<Card>,
)
    requires
        library_shown(maps, stars, loaded, shelf, q, order, r),
    ensures
        forall|i: int, j: int| 0 <= i < j < r.len() && (#[trigger] r[j]).loaded ==> (#[trigger] r[i]).loaded,
{
    let kept = shelf_positions(maps, stars, shelf);
    let keys = Seq::new(kept.len(), |j: int| shelf_key(maps[kept[j] as int], loaded, shelf));
    let ordered = Seq::new(order.len(), |k: int| maps[kept[order[k] as int] as int]);
    let shown = searched_maps(ordered, q);
    assert forall|i: int, j: int| 0 <= i < j < ordered.len() && in_game(#[trigger] ordered[j], loaded) implies in_game(#[trigger] ordered[i], loaded) by {
        assert(!crate::order::key_lt(keys[order[j] as int], keys[order[i] as int]));
        if !in_game(ordered[i], loaded) {
            assert(keys[order[j] as int].0[0] == 0u128);
            assert(keys[order[i] as int].0[0] == 1u128);
            assert(crate::order::nums_lt(keys[order[j] as int].0, keys[order[i] as int].0));
        }
    }
    lemma_searched_keeps_game_first(ordered, q, loaded);
    assert forall|i: int, j: int| 0 <= i < j < r.len() && (#[trigger] r[j]).loaded implies (#[trigger] r[i]).loaded by {
        assert(library_card(r[j], shown[j], loaded));
        assert(library_card(r[i], shown[i], loaded));
    }
}

} // verus!

use rldeck::deck::Pick;
use rldeck::matching::carry_star;
use rldeck::catalog::{Counts, Entry};
use rldeck::config::Config;
use rldeck::deck::{
    around, cache_is_fresh, chosen_game_dir, has_distinct_body, import_label, stepped, Pending, Screen, Working,
};
use rldeck::fetch::Error as FetchError;
use rldeck::game::{Install, Launcher};
use rldeck::install::State;
use rldeck::library::LocalMap;
use rldeck::matching::{catalog_star_key, reconcile_catalog_metadata};
use rldeck::model::{Query, Shelf, Sort, Tab};
use rldeck::model::from_library;
use rldeck::shelves::{explore_cards, find_map, library_cards};
use rldeck::deck::folder_import_report;

fn entry(name: &str) -> Entry {
    Entry {
        name: name.to_string(),
        description_short: None,
        description: None,
        download_url: None,
        media: Vec::new(),
        counts: Counts::default(),
    }
}

fn shelved(name: &str, saved: Option<u128>) -> LocalMap {
    LocalMap {
        name: name.to_string(),
        folder: Some(format!("/library/{name}")),
        primary: format!("/library/{name}/{name}_P.upk"),
        bytes: 1024,
        saved: saved.map(|secs| secs * 1_000_000_000),
        ..LocalMap::default()
    }
}

fn shown_library(maps: &Vec<LocalMap>, config: &Config, loaded: Option<&str>, shelf: Shelf, query: &str) -> Vec<String> {
    library_cards(maps, config, loaded, shelf, &Query::new(query)).into_iter().map(|card| card.name).collect()
}

fn shown_catalog(catalog: &Vec<Entry>, config: &Config, library: &Vec<LocalMap>, sort: Sort) -> Vec<String> {
    explore_cards(catalog, config, library, sort, &Query::new("")).into_iter().map(|card| card.name).collect()
}

#[test]
fn escape_closes_only_the_topmost_transient_state() {
    let mut deck = Screen::new();
    deck.pending = Some(Pending { key: "/library/Cool".to_string(), name: "Cool".to_string(), bytes: 42 });
    deck.chooser = true;
    deck.detail = Some((0, 0));
    deck.menu_open = true;
    deck.armed = Some("Cool".to_string());

    deck.escape();
    assert!(deck.pending.is_none());
    assert!(deck.chooser, "the chooser remains behind the confirmation");

    deck.escape();
    assert!(!deck.chooser);
    assert!(deck.detail.is_some(), "the detail remains behind the chooser");

    deck.escape();
    assert!(deck.detail.is_none());
    assert!(deck.menu_open, "the menu remains behind the detail");

    deck.escape();
    assert!(!deck.menu_open);
    assert!(deck.armed.is_some(), "the armed action is the last thing dismissed");

    deck.escape();
    assert!(deck.armed.is_none());
}

#[test]
fn an_answer_about_a_folder_we_have_left_is_ignored() {
    let mut deck = Screen::new();
    deck.game_dir = Some("/games/second".to_string());
    deck.loaded_map = Some("Cool".to_string());

    deck.game_state("/games/first", Some(State::Original));
    assert_eq!(deck.loaded_map.as_deref(), Some("Cool"), "a slow answer about the previous install must not overwrite the current one");

    deck.game_state("/games/second", Some(State::Loaded("Rings".to_string())));
    assert_eq!(deck.loaded_map.as_deref(), Some("Rings"));
}

#[test]
fn a_second_click_on_download_does_not_start_a_second_download() {
    let mut deck = Screen::new();

    let started = deck.begin_download("Triple Goal", Some("https://x/1.zip".to_string()));
    assert_eq!(started.as_deref(), Some("https://x/1.zip"));
    assert!(deck.busy.contains(&"Triple Goal".to_string()), "the first click starts it");

    deck.notice = None;
    assert_eq!(deck.begin_download("Triple Goal", Some("https://x/1.zip".to_string())), None);
    assert_eq!(deck.notice, None, "the second click is simply ignored");
}

#[test]
fn a_catalog_entry_with_no_link_says_so_instead_of_hanging() {
    let mut deck = Screen::new();

    assert_eq!(deck.begin_download("Bare", None), None);

    assert!(!deck.busy.contains(&"Bare".to_string()));
    assert_eq!(deck.notice.as_deref(), Some("Bare has no download link"));
}

#[test]
fn repair_will_not_run_on_top_of_a_load_already_in_flight() {
    let mut deck = Screen::new();
    deck.game_dir = Some("/games/busy".to_string());
    deck.working = Some(Working { map: Some("Cool".to_string()), label: "loading Cool".to_string() });

    assert_eq!(deck.repair(true), None);

    assert_eq!(deck.notice.as_deref(), Some("Still loading Cool. One at a time"));
    assert_eq!(deck.working.as_ref().map(|w| w.label.as_str()), Some("loading Cool"), "the load in flight must not be replaced");
}

#[test]
fn the_library_is_ordered_by_when_maps_arrived() {
    let config = Config::default();
    let library = vec![shelved("Zebra Crossing", Some(300)), shelved("alpha rings", Some(100)), shelved("Middle Ground", Some(200))];

    assert_eq!(shown_library(&library, &config, None, Shelf::Newest, ""), ["Zebra Crossing", "Middle Ground", "alpha rings"]);
    assert_eq!(shown_library(&library, &config, None, Shelf::Oldest, ""), ["alpha rings", "Middle Ground", "Zebra Crossing"]);
}

#[test]
fn a_map_with_no_date_sorts_last_in_both_directions() {
    let config = Config::default();
    let library = vec![shelved("Undated", None), shelved("Old", Some(100)), shelved("New", Some(900))];

    assert_eq!(shown_library(&library, &config, None, Shelf::Newest, ""), ["New", "Old", "Undated"]);
    assert_eq!(shown_library(&library, &config, None, Shelf::Oldest, ""), ["Old", "New", "Undated"]);
}

#[test]
fn maps_saved_in_the_same_second_stay_in_a_stable_order() {
    let config = Config::default();
    let library = vec![shelved("Charlie", Some(500)), shelved("alpha", Some(500)), shelved("Bravo", Some(500))];

    for shelf in [Shelf::Newest, Shelf::Oldest] {
        assert_eq!(shown_library(&library, &config, None, shelf, ""), ["alpha", "Bravo", "Charlie"], "{}", shelf.label());
    }
}

#[test]
fn searching_still_works_whichever_order_is_chosen() {
    let config = Config::default();
    let library = vec![shelved("Speed Rings", Some(1)), shelved("Dribble", Some(2))];

    for shelf in [Shelf::Newest, Shelf::Oldest] {
        assert_eq!(shown_library(&library, &config, None, shelf, "rings"), ["Speed Rings"], "{} lost the filter", shelf.label());
    }
}

#[test]
fn the_starred_shelf_contains_only_starred_maps_in_newest_order() {
    let mut config = Config::default();
    let library = vec![shelved("Old Star", Some(100)), shelved("Not Starred", Some(300)), shelved("New Star", Some(200))];
    for name in ["Old Star", "New Star"] {
        let key = library.iter().find(|map| map.name == name).unwrap().key();
        config.toggle_star(&key);
    }

    assert_eq!(shown_library(&library, &config, None, Shelf::Starred, ""), ["New Star", "Old Star"]);
}

#[test]
fn a_map_already_in_the_library_is_not_offered_again_in_explore() {
    let config = Config::default();
    let library = vec![shelved("triple goal", Some(1))];
    let catalog: Vec<Entry> = ["Triple Goal", "Banjo Bridge"].iter().map(|name| entry(name)).collect();

    assert_eq!(shown_catalog(&catalog, &config, &library, Sort::MostLiked), ["Banjo Bridge"], "matched without regard to case");
}

#[test]
fn a_manual_import_matching_the_catalog_gets_its_known_credit() {
    let mut maps = vec![shelved("Haunted Hallows", Some(1))];
    let mut haunted = entry("Haunted Hallows Escape");
    haunted.description_short = Some("Spooky &amp; polished".to_string());
    haunted.description = Some("A seasonal arena".to_string());
    let catalog = vec![haunted];

    reconcile_catalog_metadata(&mut maps, &catalog);

    assert_eq!(maps[0].author.as_deref(), Some("Lethamyr"));
    assert_eq!(maps[0].blurb.as_deref(), Some("Spooky & polished"));
    assert_eq!(maps[0].description.as_deref(), Some("A seasonal arena"));
}

#[test]
fn an_ambiguous_short_import_title_is_not_misattributed() {
    let mut maps = vec![shelved("Speed Training", Some(1))];
    let catalog: Vec<Entry> = ["Speed Training Rings", "Speed Training Dribble"].iter().map(|name| entry(name)).collect();

    reconcile_catalog_metadata(&mut maps, &catalog);

    assert_eq!(maps[0].author, None);
}

#[test]
fn the_in_game_map_is_the_primary_library_card() {
    let config = Config::default();
    let library = vec![shelved("Newest", Some(300)), shelved("In Game", Some(100)), shelved("Middle", Some(200))];

    assert_eq!(shown_library(&library, &config, Some("In Game"), Shelf::Newest, ""), ["In Game", "Newest", "Middle"]);
}

#[test]
fn explore_can_show_only_starred_catalog_maps() {
    let mut config = Config::default();
    let library: Vec<LocalMap> = Vec::new();
    let catalog: Vec<Entry> = ["Triple Goal", "Banjo Bridge"].iter().map(|name| entry(name)).collect();
    config.toggle_star(&catalog_star_key("  BANJO BRIDGE "));

    assert_eq!(shown_catalog(&catalog, &config, &library, Sort::Starred), ["Banjo Bridge"]);
}

#[test]
fn duplicate_blurb_and_description_are_only_shown_once() {
    assert!(!has_distinct_body(Some("Aerial practice"), Some(" aerial practice ")));
    assert!(has_distinct_body(Some("Short summary"), Some("Longer explanation")));
    assert!(has_distinct_body(None, Some("Only body")));
    assert!(!has_distinct_body(Some("Only blurb"), None));
}

#[test]
fn the_catalog_is_ordered_as_asked() {
    let config = Config::default();
    let library: Vec<LocalMap> = Vec::new();
    let mut catalog: Vec<Entry> = ["A", "B", "C"].iter().map(|name| entry(name)).collect();
    catalog[0].counts.likes = 5;
    catalog[1].counts.likes = 9;
    catalog[2].counts.likes = 5;
    catalog[2].counts.downloads = 7;

    assert_eq!(shown_catalog(&catalog, &config, &library, Sort::MostLiked), ["B", "A", "C"]);
    assert_eq!(shown_catalog(&catalog, &config, &library, Sort::MostDownloaded), ["C", "A", "B"]);
    assert_eq!(shown_catalog(&catalog, &config, &library, Sort::Newest), ["C", "B", "A"]);
}

#[test]
fn a_failed_download_that_wants_a_browser_opens_one() {
    let mut deck = Screen::new();
    deck.begin_download("Cool", Some("https://x".to_string()));
    let open = deck.download_failed("Cool", &FetchError::NeedsBrowser, Some("https://x".to_string()));
    assert_eq!(open.as_deref(), Some("https://x"));
    assert!(deck.refused.contains(&"Cool".to_string()));
    assert!(deck.busy.is_empty());
    assert_eq!(deck.notice.as_deref(), Some("Cool: opened in your browser to download"));

    deck.begin_download("Cool", Some("https://x".to_string()));
    assert!(deck.refused.is_empty(), "trying again clears the refusal");
    assert_eq!(deck.download_failed("Cool", &FetchError::Network("offline".to_string()), None), None);
    assert_eq!(deck.notice.as_deref(), Some("Cool: offline"));

    deck.begin_download("Cool", Some("https://x".to_string()));
    deck.download_finished("Cool");
    assert!(deck.busy.is_empty());
    assert!(!deck.spinning());
}

#[test]
fn stepping_through_pictures_goes_round() {
    assert_eq!(stepped(0, -1, 3), 2);
    assert_eq!(stepped(2, 1, 3), 0);
    assert_eq!(stepped(1, 7, 3), 2);
    assert_eq!(stepped(0, 1, 0), 0);
    assert_eq!(around(0, 4), vec![0, 1, 3]);
    assert_eq!(around(3, 4), vec![3, 0, 2]);
}

#[test]
fn start_up_picks_the_game_folder_it_can() {
    let one = vec![Install { launcher: Launcher::Steam, root: "/games/rl".to_string() }];
    assert_eq!(chosen_game_dir(Some("/games/mine".to_string()), true, &one).as_deref(), Some("/games/mine"));
    assert_eq!(chosen_game_dir(Some("/games/gone".to_string()), false, &one).as_deref(), Some("/games/rl"));
    assert_eq!(chosen_game_dir(None, false, &[]), None);

    let mut deck = Screen::new();
    deck.booted(None, 2, true, None);
    assert!(deck.chooser, "two installs and no choice yet: ask");
    assert_eq!(deck.tab, Tab::Explore, "an empty library opens on the catalog");
}

#[test]
fn small_window_rules() {
    assert!(cache_is_fresh(1000, 900, 3));
    assert!(!cache_is_fresh(1000 + 86400, 1000, 3));
    assert!(!cache_is_fresh(1000, 900, 0));
    assert!(cache_is_fresh(5, 900, 1), "a clock that went back still counts as fresh");
    assert_eq!(import_label(&["/dl/Cool.zip".to_string()]), "importing Cool.zip");
    assert_eq!(import_label(&["/a.upk".to_string(), "/b.upk".to_string()]), "importing 2 files");
}

#[test]
fn confirming_a_backup_retries_with_the_maps_filesystem_key() {
    let map = shelved("Cool", None);
    let key = map.key();
    let library = vec![map];

    let mut deck = Screen::new();
    deck.game_dir = Some("/root/rocketleague".to_string());
    deck.pending = Some(Pending { key, name: "Cool".to_string(), bytes: 64 });

    let again = deck.backup_confirmed().expect("the question was open");
    assert!(deck.pending.is_none());
    let found = find_map(&again, &library).expect("the key leads back to the map");
    assert_eq!(deck.load_request(Some(library[found].name.clone())), Some("/root/rocketleague".to_string()));
    assert_eq!(
        deck.working.as_ref().and_then(|working| working.map.as_deref()),
        Some("Cool"),
        "confirmation must actually restart the load"
    );
}

#[test]
fn the_button_on_a_card_finds_the_map_it_came_from() {
    let folder_map = LocalMap {
        name: "Folder Map".to_string(),
        folder: Some("/root/key/Folder Map".to_string()),
        primary: "/root/key/Folder Map/Folder_P.upk".to_string(),
        bytes: 64,
        ..shelved("x", None)
    };
    let loose = LocalMap {
        name: "Loose".to_string(),
        folder: None,
        primary: "/root/key/Loose_P.upk".to_string(),
        bytes: 64,
        ..shelved("y", None)
    };
    let library = vec![folder_map, loose];
    assert_eq!(library.len(), 2);

    for map in &library {
        let card = from_library(map, None);
        let found = find_map(&card.key, &library).unwrap_or_else(|| panic!("{} has a card that leads nowhere", map.name));
        assert_eq!(library[found].primary, map.primary);
    }
}

#[test]
fn loading_needs_a_game_folder_and_a_map() {
    let mut deck = Screen::new();
    assert_eq!(deck.load_request(Some("Cool".to_string())), None);
    assert!(deck.chooser, "with no game folder the chooser opens");

    deck.chooser = false;
    deck.game_dir = Some("/games/rl".to_string());
    assert_eq!(deck.load_request(None), None);
    assert!(deck.working.is_none());

    assert_eq!(deck.load_request(Some("Cool".to_string())), Some("/games/rl".to_string()));
    assert_eq!(deck.working.as_ref().map(|w| w.label.as_str()), Some("loading Cool"));
    assert_eq!(deck.load_request(Some("Other".to_string())), None);
    assert_eq!(deck.notice.as_deref(), Some("Still loading Cool. One at a time"));

    deck.swap_done("Cool".to_string());
    assert!(deck.working.is_none());
    assert_eq!(deck.loaded_map.as_deref(), Some("Cool"));
    assert_eq!(deck.notice.as_deref(), Some("Cool is loaded. Start Rocket League and play Underpass in a private match"));

    deck.swap_needs_confirmation(Pending { key: "/l/Cool".to_string(), name: "Cool".to_string(), bytes: 9 });
    assert!(deck.pending.is_some());
    deck.swap_failed("disk full".to_string());
    assert_eq!(deck.notice.as_deref(), Some("disk full"));
}

#[test]
fn repair_puts_the_original_back_only_when_there_is_one() {
    let mut deck = Screen::new();
    deck.menu_open = true;
    assert_eq!(deck.repair(true), None);
    assert!(deck.chooser && !deck.menu_open);

    deck.chooser = false;
    deck.game_dir = Some("/games/rl".to_string());
    assert_eq!(deck.repair(false), None);
    assert_eq!(deck.notice.as_deref(), Some("Nothing has been replaced yet, so there is nothing to put back"));

    assert_eq!(deck.repair(true), Some("/games/rl".to_string()));
    assert_eq!(deck.working.as_ref().map(|w| w.label.as_str()), Some("putting Underpass back"));

    deck.loaded_map = Some("Cool".to_string());
    deck.restored(Ok(()));
    assert!(deck.working.is_none() && deck.loaded_map.is_none());
    assert_eq!(deck.notice.as_deref(), Some("Underpass is back to normal"));

    deck.restored(Err("backup missing".to_string()));
    assert_eq!(deck.notice.as_deref(), Some("Could not restore Underpass: backup missing"));
}

#[test]
fn a_map_in_the_game_is_not_deleted() {
    let mut deck = Screen::new();
    deck.armed = Some("/l/Cool".to_string());
    deck.loaded_map = Some("Cool".to_string());
    assert!(!deck.delete_request(Some("Cool".to_string())));
    assert!(deck.armed.is_none());
    assert_eq!(deck.notice.as_deref(), Some("Cool is in the game. Press Repair first, then delete it"));

    assert!(!deck.delete_request(None));
    assert!(deck.delete_request(Some("Other".to_string())));
    deck.deleted("Other", Ok(()));
    assert_eq!(deck.notice.as_deref(), Some("Deleted Other"));
    deck.deleted("Other", Err("refusing to delete".to_string()));
    assert_eq!(deck.notice.as_deref(), Some("refusing to delete"));
}

#[test]
fn folders_picked_from_the_menu_are_checked_first() {
    let mut deck = Screen::new();
    deck.chooser = true;
    assert_eq!(deck.game_folder_picked("/home/me/Desktop", None), None);
    assert_eq!(deck.notice.as_deref(), Some("No Rocket League in /home/me/Desktop. Look for the folder with TAGame inside it"));
    assert!(deck.chooser);
    assert_eq!(deck.game_folder_picked("/games", Some("/games/rl".to_string())), Some("/games/rl".to_string()));
    assert!(!deck.chooser);

    deck.use_game_dir("/games/rl".to_string());
    assert_eq!(deck.game_dir.as_deref(), Some("/games/rl"));
    assert_eq!(deck.notice.as_deref(), Some("Loading maps into /games/rl"));

    deck.tab = Tab::Explore;
    assert!(!deck.library_folder_picked("/maps", Err("read-only".to_string())));
    assert_eq!(deck.notice.as_deref(), Some("Cannot use that folder: read-only"));
    assert_eq!(deck.tab, Tab::Explore);
    assert!(deck.library_folder_picked("/maps", Ok(())));
    assert_eq!(deck.tab, Tab::Library);
    assert_eq!(deck.notice.as_deref(), Some("Maps now come from /maps"));

    assert_eq!(folder_import_report(Ok("Speed Jump Ring".to_string())), "Added Speed Jump Ring");
    assert_eq!(folder_import_report(Err("no map file in x".to_string())), "Could not import that folder: no map file in x");
    deck.tab = Tab::Explore;
    deck.imported("Added Speed Jump Ring".to_string());
    assert_eq!(deck.tab, Tab::Library);
}

#[test]
fn an_arrived_download_moves_its_star_to_the_library_copy() {
    let mut config = Config::new();
    config.set_star(&catalog_star_key("Triple Goal"), true);
    assert!(carry_star(&mut config, "Triple Goal", Some("/library/Triple Goal")));
    assert!(!config.is_starred(&catalog_star_key("Triple Goal")));
    assert!(config.is_starred("/library/Triple Goal"));
    assert!(!carry_star(&mut config, "Banjo Bridge", Some("/library/Banjo Bridge")));
    assert!(!config.is_starred("/library/Banjo Bridge"));

    let mut deck = Screen::new();
    assert_eq!(deck.begin_download("Triple Goal", Some("https://drive/x".to_string())), Some("https://drive/x".to_string()));
    deck.fetched("Triple Goal");
    assert!(deck.busy.is_empty());
    assert_eq!(deck.notice.as_deref(), Some("Triple Goal added to your library"));
}

#[test]
fn the_detail_steps_through_its_pictures() {
    let mut deck = Screen::new();
    assert_eq!(deck.step_image(1, 3), None);
    deck.open_detail(4);
    assert_eq!(deck.detail, Some((4, 0)));
    assert_eq!(deck.step_image(-1, 3), Some((4, 2)));
    assert_eq!(deck.step_image(1, 3), Some((4, 0)));
    deck.open_local("/l/Cool".to_string());
    assert_eq!(deck.detail, None);
    assert_eq!(deck.local_detail.as_deref(), Some("/l/Cool"));
}

#[test]
fn each_file_dialog_asks_its_own_question() {
    assert_eq!(Pick::GameFolder.prompt(), "Where is Rocket League installed?");
    assert_eq!(Pick::LibraryFolder.prompt(), "Where should maps be kept?");
    assert_eq!(Pick::MapFiles.prompt(), "Add maps to your library");
    assert_eq!(Pick::MapFolder.prompt(), "Pick a folder holding a map");
}

#[test]
fn an_idle_window_asks_for_no_frames() {
    let mut deck = Screen::new();
    assert!(!deck.spinning(), "a fresh deck is doing nothing");

    deck.busy.push("Some Map".to_string());
    assert!(deck.spinning(), "a download turns its card's spinner");

    deck.busy.clear();
    assert!(!deck.spinning());

    deck.working = Some(Working { map: None, label: "importing".to_string() });
    assert!(deck.spinning());

    deck.finished();
    assert!(!deck.spinning(), "finishing must stop the clock");
}

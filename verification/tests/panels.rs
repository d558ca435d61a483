use rldeck::panels::settings_note;
use rldeck::panels::{art_keys, remote_art};
use rldeck::deck::{Pending, Screen, Working};
use rldeck::game::{Install, Launcher};
use rldeck::model::{Art, Card, Source, Tab};
use rldeck::panels::{
    backup_question, blank_page, card_action, chooser_text, counted, download_action, files_line, game_folder_line,
    is_current, link_label, link_targets, local_action, picture_placeholder, star_key, under_title, Layer, Loading, Mark,
    Press, Strip,
};

fn card(source: Source, loaded: bool) -> Card {
    Card {
        key: "/library/Cool".to_string(),
        name: "Cool Map".to_string(),
        author: None,
        blurb: Some("A fun one".to_string()),
        source,
        art: Art::Absent,
        loaded,
        catalog_index: None,
    }
}

#[test]
fn a_cards_button_says_what_pressing_it_does() {
    let local = card(Source::Local, false);
    let a = card_action(&local, false, false);
    assert_eq!((a.mark, a.label.as_str(), a.press), (Mark::Load, "Load", Press::Act));
    let a = card_action(&card(Source::Catalog, false), false, false);
    assert_eq!((a.mark, a.label.as_str(), a.press), (Mark::Download, "Download", Press::Act));
    let a = card_action(&card(Source::Local, true), false, false);
    assert_eq!((a.mark, a.label.as_str(), a.press), (Mark::Check, "In game", Press::Repair));
    let a = card_action(&card(Source::Local, true), false, true);
    assert_eq!((a.mark, a.label.as_str(), a.press), (Mark::Spinner, "Loading\u{2026}", Press::Nothing));
    let a = card_action(&card(Source::Catalog, false), true, true);
    assert_eq!((a.mark, a.label.as_str(), a.press), (Mark::Spinner, "Downloading\u{2026}", Press::Nothing));

    assert_eq!(local_action(true, false).label, "In game");
    assert_eq!(local_action(false, false).press, Press::Act);
    assert_eq!(local_action(false, true).mark, Mark::Spinner);
    assert_eq!(download_action(true).press, Press::Nothing);
    assert_eq!(download_action(false).label, "Download");
}

#[test]
fn a_card_names_its_author_or_its_blurb() {
    assert_eq!(under_title(&card(Source::Local, false)), "Unknown");
    let mut credited = card(Source::Local, false);
    credited.author = Some("Lethamyr".to_string());
    assert_eq!(under_title(&credited), "Lethamyr");
    assert_eq!(under_title(&card(Source::Catalog, false)), "A fun one");
    let mut bare = card(Source::Catalog, false);
    bare.blurb = None;
    assert_eq!(under_title(&bare), "");

    assert_eq!(star_key(&card(Source::Local, false)), "/library/Cool");
    assert_eq!(star_key(&card(Source::Catalog, false)), "catalog:cool map");
}

#[test]
fn sizes_and_progress_read_in_megabytes() {
    assert_eq!(files_line(1, 4_100_000), "4 MB");
    assert_eq!(files_line(3, 4_120_000), "3 files \u{b7} 4 MB");
    assert_eq!(counted(1_500_000, 4_000_000), "2 MB of 4 MB");
    assert_eq!(counted(2_000_000, 0), "2 MB");
    assert_eq!(counted(0, 0), "");
    assert_eq!(picture_placeholder(true, true), "Image unavailable");
    assert_eq!(picture_placeholder(true, false), "Loading\u{2026}");
    assert_eq!(picture_placeholder(false, false), "No screenshot");
    assert_eq!(
        backup_question("Cool", 4_120_000),
        "Loading Cool replaces Underpass. Before that happens we'll keep a copy of the one you have now (4 MB), so Repair can always put it back."
    );
}

#[test]
fn the_chooser_and_the_menu_name_the_installs() {
    assert_eq!(chooser_text(0).0, "Where is Rocket League?");
    assert_eq!(chooser_text(1).0, "Rocket League folder");
    assert_eq!(chooser_text(2).0, "Which Rocket League?");

    let installs = vec![
        Install { launcher: Launcher::Steam, root: "/steam/rocketleague".to_string() },
        Install { launcher: Launcher::Epic, root: "/epic/rocketleague".to_string() },
    ];
    assert_eq!(game_folder_line(None, &installs), None);
    assert_eq!(game_folder_line(Some("/epic/rocketleague/"), &installs).as_deref(), Some("Epic \u{b7} /epic/rocketleague/"));
    assert_eq!(game_folder_line(Some("/elsewhere"), &installs).as_deref(), Some("/elsewhere"));
    assert!(is_current(Some("/steam//rocketleague"), "/steam/rocketleague"));
    assert!(!is_current(None, "/steam/rocketleague"));
}

#[test]
fn an_empty_page_says_why() {
    let ready = Loading::Ready;
    let failed = Loading::Failed("offline".to_string());
    let b = blank_page(Tab::Library, "  ", &ready, "/maps");
    assert_eq!((b.head.as_str(), b.sub.as_str(), b.offers_import, b.offers_retry), ("No maps yet", "/maps", true, false));
    let b = blank_page(Tab::Library, " ring ", &ready, "/maps");
    assert_eq!((b.head.as_str(), b.sub.as_str(), b.offers_import), ("No matches", "", false));
    let b = blank_page(Tab::Explore, "", &failed, "/maps");
    assert_eq!((b.head.as_str(), b.sub.as_str(), b.offers_import, b.offers_retry), ("Catalog unavailable", "offline", false, true));
    assert_eq!(blank_page(Tab::Explore, "", &Loading::Busy, "/maps").head, "Loading\u{2026}");
    assert_eq!(blank_page(Tab::Explore, "", &ready, "/maps").head, "Nothing here");
}

#[test]
fn one_layer_shows_at_a_time_and_work_outranks_a_notice() {
    let mut deck = Screen::new();
    assert_eq!(deck.top_layer(), Layer::Bare);
    assert_eq!(deck.strip(), Strip::Empty);
    deck.menu_open = true;
    assert_eq!(deck.top_layer(), Layer::Menu);
    deck.local_detail = Some("/l/Cool".to_string());
    assert_eq!(deck.top_layer(), Layer::LocalDetail);
    deck.detail = Some((0, 0));
    assert_eq!(deck.top_layer(), Layer::Detail);
    deck.chooser = true;
    assert_eq!(deck.top_layer(), Layer::Chooser);
    deck.pending = Some(Pending { key: "k".to_string(), name: "n".to_string(), bytes: 1 });
    assert_eq!(deck.top_layer(), Layer::Question);

    deck.notice = Some("hello".to_string());
    assert_eq!(deck.strip(), Strip::Notice);
    deck.working = Some(Working { map: None, label: "importing".to_string() });
    assert_eq!(deck.strip(), Strip::Working);
}

#[test]
fn an_open_map_offers_each_of_its_links_once() {
    let sources = vec![
        Some("Get BakkesMod at www.bakkesmod.com. Also https://discord.gg/x!".to_string()),
        None,
        Some("Again: https://www.bakkesmod.com and http://old.site/".to_string()),
    ];
    let urls = link_targets(&sources);
    assert_eq!(urls, vec!["https://www.bakkesmod.com", "https://discord.gg/x", "http://old.site/"]);
    assert!(link_targets(&[None, Some("no links here".to_string())]).is_empty());

    assert_eq!(link_label("https://bakkesmod.com/"), "bakkesmod.com");
    assert_eq!(link_label("http://old.site//"), "old.site");
    assert_eq!(link_label("https://https://twice.com"), "twice.com");
}

#[test]
fn the_gallery_is_told_which_pictures_the_cards_show() {
    let mut a = card(Source::Catalog, false);
    a.art = Art::Remote("https://img/a.jpg".to_string());
    let mut b = card(Source::Local, false);
    b.art = Art::File("/library/Cool/preview.jpg".to_string());
    let c = card(Source::Local, false);
    let mut d = card(Source::Catalog, false);
    d.art = Art::Remote("https://img/d.jpg".to_string());
    let cards = vec![a, b, c, d];
    assert_eq!(remote_art(&cards), vec!["https://img/a.jpg", "https://img/d.jpg"]);
    assert_eq!(art_keys(&cards), vec!["https://img/a.jpg", "/library/Cool/preview.jpg", "https://img/d.jpg"]);
}

#[test]
fn the_settings_box_says_where_to_look_when_the_page_had_none() {

    assert_eq!(settings_note(Some("Boost: Unlimited"), false), Some(("Boost: Unlimited".to_string(), true)));
    assert_eq!(
        settings_note(None, true),
        Some(("Not listed here. Check the map's page, linked below.".to_string(), false))
    );
    assert_eq!(settings_note(None, false), None);
}

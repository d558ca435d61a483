use rldeck::catalog::{Counts, Entry};
use rldeck::library::LocalMap;
use rldeck::model::{from_catalog, from_library, Art, Query, Shelf, Sort, Source, Tab};

fn entry(name: &str, short: Option<&str>, media: &[&str]) -> Entry {
    Entry {
        name: name.to_string(),
        description_short: short.map(|s| s.to_string()),
        description: None,
        download_url: None,
        media: media.iter().map(|m| m.to_string()).collect(),
        counts: Counts::default(),
    }
}

#[test]
fn a_catalog_card_carries_no_markup_into_the_view() {
    let card = from_catalog(&entry("Rings", Some("Fly &amp; land<br>fast"), &[]), 3);

    assert_eq!(card.blurb.as_deref(), Some("Fly & land\nfast"));
    assert_eq!(card.catalog_index, Some(3));
    assert_eq!(card.source, Source::Catalog);
}

#[test]
fn a_card_with_no_picture_asks_the_gallery_for_nothing() {
    let bare = from_catalog(&entry("Bare", None, &[]), 0);
    assert_eq!(bare.art, Art::Absent);
    assert_eq!(bare.art_key(), None);

    let art = from_catalog(&entry("Shot", None, &["https://art/1.jpg", "https://art/2.jpg"]), 0);
    assert_eq!(art.art_key().as_deref(), Some("https://art/1.jpg"));
}

#[test]
fn a_local_card_is_keyed_by_what_deleting_it_would_take() {
    let map = LocalMap {
        name: "Cool".to_string(),
        folder: Some("/library/Cool".to_string()),
        primary: "/library/Cool/Cool_P.upk".to_string(),
        image: Some("/library/Cool/preview.png".to_string()),
        ..LocalMap::default()
    };

    let card = from_library(&map, Some("Cool"));

    assert_eq!(card.key, "/library/Cool");
    assert!(card.loaded, "the map named as loaded is the one in the game");
    assert_eq!(card.art_key().as_deref(), Some("/library/Cool/preview.png"));
    assert_eq!(card.blurb, None, "local cards show the author instead");
}

#[test]
fn search_looks_at_the_name_and_the_author() {
    let card = from_library(
        &LocalMap { name: "Speed Rings".to_string(), author: Some("Lethamyr".to_string()), ..LocalMap::default() },
        None,
    );

    assert!(card.matches(&Query::new("")), "an empty box hides nothing");
    assert!(card.matches(&Query::new("rings")));
    assert!(card.matches(&Query::new("speed r")));
    assert!(card.matches(&Query::new("  LETHAMYR ")), "typed case does not matter");
    assert!(!card.matches(&Query::new("dribble")));
}

#[test]
fn the_tabs_and_orderings_are_labelled_for_the_pickers() {
    assert_eq!(Tab::ALL.map(Tab::label), ["Library", "Explore"]);
    assert_eq!(Shelf::default(), Shelf::Newest);
    assert_eq!(Shelf::ALL.map(|s| s.label()), ["Newest", "Oldest", "Starred"]);
    assert_eq!(Sort::default(), Sort::MostLiked);
    assert_eq!(Sort::ALL.map(|s| s.label()), ["Most liked", "Most downloaded", "Newest", "Starred"]);
}

#[test]
fn a_card_not_in_the_game_is_not_marked_loaded() {
    let map = LocalMap { name: "Cool".to_string(), ..LocalMap::default() };
    assert!(!from_library(&map, Some("Other")).loaded);
    assert!(!from_library(&map, None).loaded);
    assert_eq!(from_library(&map, None).art, Art::Absent);
}

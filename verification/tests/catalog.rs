use rldeck::catalog::{details_from, fallback_page, last_page_to_read, page_address, page_request, probe_pages, MAX_PAGES};
use rldeck::catalog::{absolute, floor_boundary, href_in, linkify, parse_settings, plain_text, title_matches, Chunk, Counts, Entry};

fn entry(name: &str) -> Entry {
    Entry {
        name: name.to_string(),
        description_short: None,
        description: None,
        download_url: None,
        media: Vec::new(),
        counts: Counts::default(),
    }
}

fn text(s: &str) -> Chunk {
    Chunk::Text(s.to_string())
}

fn link(s: &str) -> Chunk {
    Chunk::Link(s.to_string())
}

#[test]
fn an_entry_without_a_download_url_is_not_an_error() {
    let entry = entry("Bare");
    assert_eq!(entry.name, "Bare");
    assert_eq!(entry.download_url, None);
    assert_eq!(entry.thumbnail(), None);
}

#[test]
fn strips_the_markup_the_api_actually_sends() {
    let raw = "Disguise your car!</p><p class=\"\" style=\"white-space:pre-wrap;\">Second para.";
    assert_eq!(plain_text(raw), "Disguise your car!\nSecond para.");
}

#[test]
fn line_breaks_survive_as_line_breaks() {
    assert_eq!(plain_text("one<br>two<br/>three"), "one\ntwo\nthree");
}

#[test]
fn decodes_the_entities_that_appear() {
    assert_eq!(plain_text("Rock &amp; Roll &#39;22"), "Rock & Roll '22");
}

#[test]
fn nothing_executable_survives() {
    let hostile = "<script>alert('x')</script>hi<img src=x onerror=alert(1)>";
    let out = plain_text(hostile);
    assert!(!out.contains('<'), "no tags: {out}");
    assert!(!out.contains("onerror"), "no attributes: {out}");
    assert!(out.contains("hi"));
}

#[test]
fn unclosed_tags_do_not_swallow_everything_or_panic() {
    assert_eq!(plain_text("text <unclosed"), "text");
    assert_eq!(plain_text("a & b"), "a & b");
}

#[test]
fn plain_descriptions_are_untouched() {
    let plain = "Each team has 3 goals!";
    assert_eq!(plain_text(plain), plain);
}

#[test]
fn pulls_links_out_of_a_real_description() {
    let chunks = linkify("Run it at https://www.speedrun.com/ipt/ for the leaderboard.");

    assert_eq!(chunks, vec![text("Run it at "), link("https://www.speedrun.com/ipt/"), text(" for the leaderboard.")]);
}

#[test]
fn trailing_punctuation_is_not_part_of_the_link() {
    let chunks = linkify("see https://speedrun.com/ipi.");
    assert_eq!(chunks[1], link("https://speedrun.com/ipi"));
    assert_eq!(chunks[2], text("."));
}

#[test]
fn bare_www_links_are_found_and_given_a_scheme() {
    let chunks = linkify("go to www.example.com now");
    assert_eq!(chunks[1], link("www.example.com"));
    assert_eq!(absolute("www.example.com"), "https://www.example.com");
    assert_eq!(absolute("https://x.com"), "https://x.com");
}

#[test]
fn text_without_links_stays_one_chunk() {
    let chunks = linkify("Each team has 3 goals!");
    assert_eq!(chunks, vec![text("Each team has 3 goals!")]);
}

#[test]
fn a_link_inside_the_settings_keeps_its_destination() {
    let html = r#"<h3>Recommended Settings</h3><p>Needs
        <a href="https://bakkesmod.com/">BakkesMod</a> and boost: unlimited</p>"#;

    let settings = parse_settings(html).expect("settings block");
    assert!(settings.contains("bakkesmod.com"), "the destination must survive stripping: {settings:?}");

    let links: Vec<String> = linkify(&settings)
        .into_iter()
        .filter_map(|c| match c {
            Chunk::Link(url) => Some(url),
            Chunk::Text(_) => None,
        })
        .collect();
    assert_eq!(links, vec!["https://bakkesmod.com/".to_string()]);
}

#[test]
fn stylesheet_links_do_not_leak_into_recommended_settings() {
    let html = r#"<h3>Recommended Settings</h3><p>Boost: Unlimited</p>
        <link href="https://fonts.googleapis.com/css2?family=Poppins">"#;

    let settings = parse_settings(html).expect("settings block");
    assert_eq!(settings, "Boost: Unlimited");
}

#[test]
fn single_quoted_and_bare_hrefs_are_read_too() {
    assert_eq!(href_in("a href='https://x.com/a' target=_blank"), Some("https://x.com/a".to_string()));
    assert_eq!(href_in("a href=https://y.com"), Some("https://y.com".to_string()));
    assert_eq!(href_in("p class=\"x\""), None);
}

#[test]
fn a_multibyte_page_is_not_cut_down_the_middle_of_a_character() {
    let filler = "\u{2014}".repeat(400);
    let html = format!("<h3>Recommended Settings</h3><p>Boost: unlimited</p>{filler}");

    let settings = parse_settings(&html).expect("settings block");
    assert!(settings.contains("Boost: unlimited"));
}

#[test]
fn the_cut_never_lands_inside_a_character() {
    let text = "a\u{2014}b\u{00e9}c";

    for at in 0..=text.len() + 4 {
        let cut = floor_boundary(text, at);
        assert!(text.is_char_boundary(cut), "{at} floored to {cut}");
        assert!(cut <= at.min(text.len()));
        let _ = &text[..cut];
    }
}

#[test]
fn an_uppercase_href_is_read_like_any_other() {
    assert_eq!(href_in(r#"A HREF="https://x.com/a" TARGET=_blank"#), Some("https://x.com/a".to_string()));
    assert_eq!(href_in(r"a Href='https://y.com'"), Some("https://y.com".to_string()));
}

#[test]
fn a_tag_carrying_multibyte_text_does_not_shift_the_href() {
    let tag = "a title=\"Caf\u{00e9} \u{2014} best map\" href=\"https://z.com/caf\u{00e9}\"";
    assert_eq!(href_in(tag), Some("https://z.com/caf\u{00e9}".to_string()));
}

#[test]
fn a_page_without_the_block_yields_nothing() {
    assert_eq!(parse_settings("<p>Just a description.</p>"), None);
}

#[test]
fn a_tag_left_open_after_the_heading_leaves_no_markup_behind() {
    let html = "<h3>Recommended Settings</h3><p>Boost: Unlimited<a href";
    assert_eq!(parse_settings(html), Some("Boost: Unlimited".to_string()));
}

#[test]
fn page_titles_are_matched_without_the_site_suffix() {
    assert!(title_matches("Triple Goal - Lethamyr", "Triple Goal"));
    assert!(title_matches("Banjo Bridge - Lethamyr", "banjo bridge"));
    assert!(!title_matches("Capture the Flag Retro - Lethamyr", "Banjo Bridge"));
}

#[test]
fn a_thumbnail_is_the_first_picture() {
    let mut e = entry("Shot");
    e.media = vec!["https://art/1.jpg".to_string(), "https://art/2.jpg".to_string()];
    assert_eq!(e.thumbnail(), Some("https://art/1.jpg"));
}

#[test]
fn an_entity_that_is_not_known_stays_as_written() {
    assert_eq!(plain_text("a &bogus; b"), "a &bogus; b");
}

#[test]
fn the_catalog_is_read_page_by_page_up_to_a_limit() {
    assert_eq!(page_request(1), "https://lethamyr.com/api/v1/maps?page=1");
    assert_eq!(page_request(37), "https://lethamyr.com/api/v1/maps?page=37");
    assert_eq!(last_page_to_read(7), 7);
    assert_eq!(last_page_to_read(250), MAX_PAGES);
}

#[test]
fn a_maps_page_is_looked_for_near_its_place_in_the_catalog() {
    assert_eq!(probe_pages(0), vec![1, 2, 3, 4]);
    assert_eq!(probe_pages(1), vec![2, 3, 1, 4, 5]);
    assert_eq!(probe_pages(9), vec![10, 11, 9, 12, 8, 13, 7]);
    assert_eq!(page_address(12), "https://lethamyr.com/maps/12");
    assert_eq!(fallback_page(), "https://lethamyr.com/maps");
}

#[test]
fn a_page_gives_details_only_for_the_map_it_is_about() {
    let body = "<html><head><title>Triple Goal - Lethamyr</title></head><body><h3>Recommended Settings</h3><p>Boost: Unlimited</p></body></html>";
    let details = details_from("https://lethamyr.com/maps/3".to_string(), body, "triple goal").expect("the page names the map");
    assert_eq!(details.url.as_deref(), Some("https://lethamyr.com/maps/3"));
    assert_eq!(details.settings.as_deref(), Some("Boost: Unlimited"));

    assert_eq!(details_from("https://lethamyr.com/maps/4".to_string(), body, "Banjo Bridge"), None);
    assert_eq!(details_from("https://lethamyr.com/maps/5".to_string(), "<p>no title</p>", "Triple Goal"), None);

    let plain = "<title>Banjo Bridge - Lethamyr</title><p>Just a description.</p>";
    let details = details_from("u".to_string(), plain, "Banjo Bridge").unwrap();
    assert_eq!(details.settings, None);
}

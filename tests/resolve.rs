use lotr_octgn::get_image_urls;
use lotr_octgn::hall_of_beorn::{Card as HobCard, Side};
use lotr_octgn::octgn::Card as OctgnCard;
use lotr_octgn::resolve::{flip_face_marker, guess_hob_card, octgn_to_hob, resolve_card};
use lotr_octgn::{EmptyCandidateSet, Substitution};

const IMAGES: &str = "https://s3.amazonaws.com/hallofbeorn-resources/Images/Cards/The-Wilds-of-Rhovanion";

fn hob_card(title: &str, image: &str) -> HobCard {
    HobCard {
        title: title.to_string(),
        is_unique: false,
        card_type: "Ally".to_string(),
        card_sub_type: "None".to_string(),
        sphere: None,
        front: Side {
            subtitle: None,
            image_path: format!("{}/{}", IMAGES, image),
            stats: None,
            traits: vec![],
            keywords: vec![],
            text: vec![],
            flavor_text: None,
        },
        back: None,
        card_set: "The Wilds of Rhovanion".to_string(),
        number: 1,
        quantity: 1,
        artist: "".to_string(),
        has_errata: false,
        categories: None,
    }
}

fn load_hall_of_beorn() -> Vec<HobCard> {
    vec![
        hob_card("Brand son of Bain", "Brand-son-of-Bain.jpg"),
        hob_card("Fire-drake", "Fire-drake.jpg"),
        hob_card("Fire Arrows", "Fire-Arrows.jpg"),
        hob_card("Traveling North", "Traveling-North-1A.jpg"),
        hob_card("Woodmen Village", "Woodmen-Village.jpg"),
        hob_card("Haldan", "Haldan.jpg"),
        hob_card("Beorning Guardian", "Beorning-Guardian.jpg"),
        hob_card("Grimbeorn the Old", "Grimbeorn-the-Old.jpg"),
    ]
}

fn octgn_card(id: &str, name: &str, back_name: Option<&str>) -> OctgnCard {
    OctgnCard {
        id: id.to_string(),
        name: name.to_string(),
        back_name: back_name.map(|b| b.to_string()),
    }
}

#[test]
fn test_get_image_urls_normal_card() {
    let hob_cards = load_hall_of_beorn();
    let brand_son_of_bain = octgn_card("2b75792d-5873-4fc6-9272-d20dd517d36b", "Brand son of Bain", None);
    let octgn_cards = vec![brand_son_of_bain];

    let card_downloads = get_image_urls(&octgn_cards, &hob_cards).unwrap().downloads;
    assert_eq!(card_downloads.len(), 1);

    let card = card_downloads.get(0).unwrap();
    assert_eq!(&card.id, "2b75792d-5873-4fc6-9272-d20dd517d36b");
    assert_eq!(&card.front_url, "https://s3.amazonaws.com/hallofbeorn-resources/Images/Cards/The-Wilds-of-Rhovanion/Brand-son-of-Bain.jpg");
    assert!(&card.back_url.is_none());
}

#[test]
fn test_get_image_urls_unknown_card() {
    let hob_cards = load_hall_of_beorn();
    let fire_drake = octgn_card("42a5a608-0699-4cd5-b69d-f7c3413cd5cd", "Fire Drake", None);
    let octgn_cards = vec![fire_drake];

    let card_downloads = get_image_urls(&octgn_cards, &hob_cards).unwrap().downloads;
    assert_eq!(card_downloads.len(), 1);

    let card = card_downloads.get(0).unwrap();
    assert_eq!(&card.id, "42a5a608-0699-4cd5-b69d-f7c3413cd5cd");
    assert_eq!(&card.front_url, "https://s3.amazonaws.com/hallofbeorn-resources/Images/Cards/The-Wilds-of-Rhovanion/Fire-drake.jpg");
    assert!(&card.back_url.is_none());
}

#[test]
fn test_get_image_urls_quest_card() {
    let hob_cards = load_hall_of_beorn();
    let traveling_north = octgn_card(
        "b4b0bdc8-5edb-40c9-a9ca-dac60fe7cb38",
        "Traveling North",
        Some("Traveling North"),
    );
    let octgn_cards = vec![traveling_north];

    let card_downloads = get_image_urls(&octgn_cards, &hob_cards).unwrap().downloads;
    assert_eq!(card_downloads.len(), 1);

    let card = card_downloads.get(0).unwrap();
    assert_eq!(&card.id, "b4b0bdc8-5edb-40c9-a9ca-dac60fe7cb38");
    assert_eq!(&card.front_url, "https://s3.amazonaws.com/hallofbeorn-resources/Images/Cards/The-Wilds-of-Rhovanion/Traveling-North-1A.jpg");
    assert!(&card.back_url.is_some());

    let result = card.back_url.as_ref().unwrap();
    assert_eq!(result, "https://s3.amazonaws.com/hallofbeorn-resources/Images/Cards/The-Wilds-of-Rhovanion/Traveling-North-1B.jpg");
}

#[test]
fn test_get_image_urls_back_name_card() {
    let hob_cards = load_hall_of_beorn();
    let woodman_village = octgn_card(
        "1d4d59f4-def5-4c9e-ba3f-8a28e7f66c73",
        "Woodman Village",
        Some("Haldan"),
    );
    let octgn_cards = vec![woodman_village];

    let card_downloads = get_image_urls(&octgn_cards, &hob_cards).unwrap().downloads;
    assert_eq!(card_downloads.len(), 1);

    let card = card_downloads.get(0).unwrap();
    assert_eq!(&card.id, "1d4d59f4-def5-4c9e-ba3f-8a28e7f66c73");
    assert_eq!(&card.front_url, "https://s3.amazonaws.com/hallofbeorn-resources/Images/Cards/The-Wilds-of-Rhovanion/Woodmen-Village.jpg");
    assert!(&card.back_url.is_some());

    let result = card.back_url.as_ref().unwrap();
    assert_eq!(result, "https://s3.amazonaws.com/hallofbeorn-resources/Images/Cards/The-Wilds-of-Rhovanion/Haldan.jpg");
}

#[test]
fn test_guess_hob_card() {
    let hob_cards = load_hall_of_beorn();
    let fire_drake = &hob_cards[guess_hob_card(&hob_cards, "Fire Drake").unwrap()];
    assert_eq!(fire_drake.title, "Fire-drake");
}

#[test]
fn guess_fails_without_candidates() {
    assert_eq!(guess_hob_card(&vec![], "Fire Drake"), Err(EmptyCandidateSet));
}

#[test]
fn guess_breaks_ties_by_first_candidate() {
    let hob_cards = vec![hob_card("abd", "abd.jpg"), hob_card("abe", "abe.jpg")];
    assert_eq!(guess_hob_card(&hob_cards, "abc"), Ok(0));
    let reversed = vec![hob_card("abe", "abe.jpg"), hob_card("abd", "abd.jpg")];
    assert_eq!(guess_hob_card(&reversed, "abc"), Ok(0));
}

#[test]
fn guess_is_repeatable() {
    let hob_cards = load_hall_of_beorn();
    let first = guess_hob_card(&hob_cards, "Beorning Guardain");
    for _ in 0..10 {
        assert_eq!(guess_hob_card(&hob_cards, "Beorning Guardain"), first);
    }
    assert_eq!(first, Ok(6));
}

#[test]
fn guess_prefers_single_edit_over_two_edits() {
    let hob_cards = vec![
        hob_card("Gandalf", "a.jpg"),
        hob_card("Gandolf", "b.jpg"),
        hob_card("Gimli", "c.jpg"),
    ];
    // one substitution away from "Gandolf", two from "Gandalf"
    assert_eq!(guess_hob_card(&hob_cards, "Gxndolf"), Ok(1));
    // one insertion away from "Gimli"
    assert_eq!(guess_hob_card(&hob_cards, "Gimlli"), Ok(2));
    // one deletion away from "Gandalf"
    assert_eq!(guess_hob_card(&hob_cards, "Gandal"), Ok(0));
}

#[test]
fn exact_title_beats_near_duplicates() {
    let hob_cards = vec![
        hob_card("Fire-drake", "near.jpg"),
        hob_card("Fire Drake", "exact.jpg"),
        hob_card("Fire Drakes", "other.jpg"),
    ];
    let mut substitutions: Vec<Substitution> = Vec::new();
    let index = octgn_to_hob(&"Fire Drake".to_string(), &hob_cards, &mut substitutions);
    assert_eq!(index, 1);
    assert!(substitutions.is_empty());
}

#[test]
fn exact_title_last_duplicate_wins() {
    let hob_cards = vec![
        hob_card("Haldan", "first.jpg"),
        hob_card("Beorning Guardian", "x.jpg"),
        hob_card("Haldan", "second.jpg"),
    ];
    let mut substitutions: Vec<Substitution> = Vec::new();
    assert_eq!(octgn_to_hob(&"Haldan".to_string(), &hob_cards, &mut substitutions), 2);
}

#[test]
fn approximate_match_records_substitution() {
    let hob_cards = load_hall_of_beorn();
    let mut substitutions: Vec<Substitution> = Vec::new();
    let index = octgn_to_hob(&"Woodman Village".to_string(), &hob_cards, &mut substitutions);
    assert_eq!(hob_cards[index].title, "Woodmen Village");
    assert_eq!(substitutions.len(), 1);
    assert_eq!(substitutions[0].name, "Woodman Village");
    assert_eq!(substitutions[0].title, "Woodmen Village");
}

#[test]
fn self_named_back_flips_face_marker() {
    let hob_cards = vec![hob_card("Traveling North", "Traveling-North-1A.jpg")];
    let card = octgn_card("x", "Traveling North", Some("Traveling North"));
    let resolution = resolve_card(&card, &hob_cards);
    let back = resolution.download.back_url.unwrap();
    assert_ne!(back, resolution.download.front_url);
    assert_eq!(back, format!("{}/Traveling-North-1B.jpg", IMAGES));
}

#[test]
fn self_named_back_without_marker_keeps_locator() {
    let hob_cards = vec![hob_card("Traveling North", "Traveling-North.png")];
    let card = octgn_card("x", "Traveling North", Some("Traveling North"));
    let resolution = resolve_card(&card, &hob_cards);
    assert_eq!(resolution.download.back_url.unwrap(), resolution.download.front_url);
}

#[test]
fn distinct_back_resolved_independently() {
    let hob_cards = load_hall_of_beorn();
    let card = octgn_card("X", "Woodman Village", Some("Haldan"));
    let plan = get_image_urls(&vec![card], &hob_cards).unwrap();
    let download = &plan.downloads[0];
    assert_eq!(download.id, "X");
    assert_eq!(download.front_url, format!("{}/Woodmen-Village.jpg", IMAGES));
    assert_eq!(download.back_url, Some(format!("{}/Haldan.jpg", IMAGES)));
    assert_eq!(plan.substitutions.len(), 1);
    assert_eq!(plan.substitutions[0].name, "Woodman Village");
}

#[test]
fn distinct_back_with_approximate_name_is_recorded() {
    let hob_cards = load_hall_of_beorn();
    let card = octgn_card("Y", "Haldan", Some("Grimbeorn the Od"));
    let plan = get_image_urls(&vec![card], &hob_cards).unwrap();
    assert_eq!(plan.downloads[0].back_url, Some(format!("{}/Grimbeorn-the-Old.jpg", IMAGES)));
    assert_eq!(plan.substitutions.len(), 1);
    assert_eq!(plan.substitutions[0].name, "Grimbeorn the Od");
    assert_eq!(plan.substitutions[0].title, "Grimbeorn the Old");
}

#[test]
fn image_urls_keep_local_order() {
    let hob_cards = load_hall_of_beorn();
    let octgn_cards = vec![
        octgn_card("1", "Haldan", None),
        octgn_card("2", "Fire Drake", None),
        octgn_card("3", "Brand son of Bain", None),
        octgn_card("4", "Woodman Village", Some("Haldan")),
    ];
    let plan = get_image_urls(&octgn_cards, &hob_cards).unwrap();
    let ids: Vec<&str> = plan.downloads.iter().map(|d| d.id.as_str()).collect();
    assert_eq!(ids, vec!["1", "2", "3", "4"]);
    assert_eq!(plan.downloads[1].front_url, format!("{}/Fire-drake.jpg", IMAGES));
    let names: Vec<&str> = plan.substitutions.iter().map(|s| s.name.as_str()).collect();
    assert_eq!(names, vec!["Fire Drake", "Woodman Village"]);
}

#[test]
fn image_urls_are_idempotent() {
    let hob_cards = load_hall_of_beorn();
    let octgn_cards = vec![
        octgn_card("1", "Traveling North", Some("Traveling North")),
        octgn_card("2", "Fire Drake", None),
        octgn_card("3", "Woodman Village", Some("Haldan")),
    ];
    let first = get_image_urls(&octgn_cards, &hob_cards).unwrap();
    let second = get_image_urls(&octgn_cards, &hob_cards).unwrap();
    assert_eq!(first.downloads.len(), second.downloads.len());
    for (a, b) in first.downloads.iter().zip(second.downloads.iter()) {
        assert_eq!(a.id, b.id);
        assert_eq!(a.front_url, b.front_url);
        assert_eq!(a.back_url, b.back_url);
    }
    assert_eq!(first.substitutions.len(), second.substitutions.len());
}

#[test]
fn image_urls_fail_on_empty_remote() {
    let octgn_cards = vec![octgn_card("1", "Haldan", None)];
    assert!(matches!(get_image_urls(&octgn_cards, &vec![]), Err(EmptyCandidateSet)));
    assert!(matches!(get_image_urls(&vec![], &vec![]), Err(EmptyCandidateSet)));
}

#[test]
fn image_urls_of_no_cards() {
    let plan = get_image_urls(&vec![], &load_hall_of_beorn()).unwrap();
    assert!(plan.downloads.is_empty());
    assert!(plan.substitutions.is_empty());
}

#[test]
fn face_marker_flips_only_the_suffix() {
    assert_eq!(flip_face_marker("https://x/A.jpg-cards/Card-1A.jpg"), "https://x/A.jpg-cards/Card-1B.jpg");
    assert_eq!(flip_face_marker("A.jpg"), "B.jpg");
    assert_eq!(flip_face_marker("Card-1A.jpg.png"), "Card-1A.jpg.png");
    assert_eq!(flip_face_marker(".jpg"), ".jpg");
    assert_eq!(flip_face_marker("Çard-1A.jpg"), "Çard-1B.jpg");
}

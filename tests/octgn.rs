use lotr_octgn::octgn::{
    AttributeMissingError, Game, NoMatchingGameError, OctgnSet, PropertyMissingError, SetError,
    XmlAttribute, XmlElement, ARKHAM_HORROR_ID, LOTR_ID,
};

fn element(tag: &str, attributes: &[(&str, &str)], children: Vec<XmlElement>) -> XmlElement {
    XmlElement {
        tag: tag.to_string(),
        attributes: attributes
            .iter()
            .map(|(name, value)| XmlAttribute { name: name.to_string(), value: value.to_string() })
            .collect(),
        children,
    }
}

fn empty_cards() -> Vec<XmlElement> {
    vec![element("cards", &[], vec![])]
}

#[test]
fn test_new_missing_id() {
    let root = element(
        "set",
        &[
            ("xmlns:noNamespaceSchemaLocation", "CardSet.xsd"),
            ("name", "The Wilds of Rhovanion"),
            ("gameId", "a21af4e8-be4b-4cda-a6b6-534f9717391f"),
            ("gameVersion", "2.3.6.0"),
            ("version", "1.0.0"),
        ],
        empty_cards(),
    );
    let result = OctgnSet::new(&root);

    assert!(result.is_err());
    assert_eq!(
        result.unwrap_err(),
        SetError::AttributeMissing(AttributeMissingError::new("set", "id"))
    );
}

#[test]
fn test_new_missing_name() {
    let root = element(
        "set",
        &[
            ("xmlns:noNamespaceSchemaLocation", "CardSet.xsd"),
            ("gameId", "a21af4e8-be4b-4cda-a6b6-534f9717391f"),
            ("id", "e37145f0-8970-48d3-93bc-cef612226bda"),
            ("gameVersion", "2.3.6.0"),
            ("version", "1.0.0"),
        ],
        empty_cards(),
    );
    let result = OctgnSet::new(&root);

    assert!(result.is_err());
    assert_eq!(
        result.unwrap_err(),
        SetError::AttributeMissing(AttributeMissingError::new("set", "name"))
    );
}

#[test]
fn test_new_missing_game_id() {
    let root = element(
        "set",
        &[
            ("xmlns:noNamespaceSchemaLocation", "CardSet.xsd"),
            ("name", "The Wilds of Rhovanion"),
            ("id", "e37145f0-8970-48d3-93bc-cef612226bda"),
            ("gameVersion", "2.3.6.0"),
            ("version", "1.0.0"),
        ],
        empty_cards(),
    );
    let result = OctgnSet::new(&root);

    assert!(result.is_err());
    assert_eq!(
        result.unwrap_err(),
        SetError::AttributeMissing(AttributeMissingError::new("set", "gameId"))
    );
}

fn wilds_attributes() -> Vec<(&'static str, &'static str)> {
    vec![
        ("xmlns:noNamespaceSchemaLocation", "CardSet.xsd"),
        ("name", "The Wilds of Rhovanion"),
        ("id", "e37145f0-8970-48d3-93bc-cef612226bda"),
        ("gameId", "a21af4e8-be4b-4cda-a6b6-534f9717391f"),
        ("gameVersion", "2.3.6.0"),
        ("version", "1.0.0"),
    ]
}

fn woodman_village() -> XmlElement {
    element(
        "card",
        &[
            ("id", "1d4d59f4-def5-4c9e-ba3f-8a28e7f66c73"),
            ("name", "Woodman Village"),
            ("size", "EncounterCard"),
        ],
        vec![
            element("property", &[("name", "Card Number"), ("value", "69")], vec![]),
            element("property", &[("name", "Type"), ("value", "Location")], vec![]),
            element(
                "alternate",
                &[("name", "Haldan"), ("type", "B")],
                vec![element("property", &[("name", "Type"), ("value", "Objective Ally")], vec![])],
            ),
        ],
    )
}

#[test]
fn test_card_back() {
    let root = element(
        "set",
        &wilds_attributes(),
        vec![element("cards", &[], vec![woodman_village()])],
    );
    let set = OctgnSet::new(&root).unwrap();

    let card = set.cards.get(0).unwrap();
    assert!(card.back_name.is_some());
    assert_eq!(card.back_name.as_deref(), Some("Haldan"));
}

#[test]
fn new_reads_set_and_cards_in_order() {
    let root = element(
        "set",
        &wilds_attributes(),
        vec![element(
            "cards",
            &[],
            vec![
                element("card", &[("id", "a"), ("name", "Brand son of Bain")], vec![]),
                element("note", &[], vec![]),
                woodman_village(),
                element("card", &[("id", "c"), ("name", "Fire Drake")], vec![]),
            ],
        )],
    );
    let set = OctgnSet::new(&root).unwrap();
    assert_eq!(set.id, "e37145f0-8970-48d3-93bc-cef612226bda");
    assert_eq!(set.name, "The Wilds of Rhovanion");
    assert_eq!(set.game, Game::LOTR);
    let names: Vec<&str> = set.cards.iter().map(|c| c.name.as_str()).collect();
    assert_eq!(names, vec!["Brand son of Bain", "Woodman Village", "Fire Drake"]);
    assert_eq!(set.cards[0].id, "a");
    assert!(set.cards[0].back_name.is_none());
}

#[test]
fn new_reads_arkham_horror_set() {
    let root = element(
        "set",
        &[
            ("name", "Dunwich Legacy"),
            ("id", "dfa9b3bf-58f2-4611-ae55-e25562726d62"),
            ("gameId", ARKHAM_HORROR_ID),
        ],
        empty_cards(),
    );
    let set = OctgnSet::new(&root).unwrap();
    assert_eq!(set.game, Game::ArkhamHorror);
    assert!(set.cards.is_empty());
}

#[test]
fn new_rejects_unknown_game() {
    let root = element(
        "set",
        &[("name", "Some Set"), ("id", "x"), ("gameId", "not-a-game")],
        empty_cards(),
    );
    assert_eq!(
        OctgnSet::new(&root).unwrap_err(),
        SetError::NoMatchingGame(NoMatchingGameError::new("not-a-game"))
    );
}

#[test]
fn new_requires_cards_element() {
    let root = element(
        "set",
        &[("name", "Some Set"), ("id", "x"), ("gameId", LOTR_ID)],
        vec![element("markers", &[], vec![])],
    );
    assert_eq!(
        OctgnSet::new(&root).unwrap_err(),
        SetError::PropertyMissing(PropertyMissingError::new("cards"))
    );
}

#[test]
fn new_reports_card_without_name() {
    let root = element(
        "set",
        &wilds_attributes(),
        vec![element(
            "cards",
            &[],
            vec![
                element("card", &[("id", "a")], vec![]),
                element("card", &[("name", "No Id")], vec![]),
            ],
        )],
    );
    assert_eq!(
        OctgnSet::new(&root).unwrap_err(),
        SetError::AttributeMissing(AttributeMissingError::new("card", "name"))
    );
}

#[test]
fn new_reports_alternate_without_name() {
    let root = element(
        "set",
        &wilds_attributes(),
        vec![element(
            "cards",
            &[],
            vec![element(
                "card",
                &[("id", "a"), ("name", "Front")],
                vec![element("alternate", &[("type", "B")], vec![])],
            )],
        )],
    );
    assert_eq!(
        OctgnSet::new(&root).unwrap_err(),
        SetError::AttributeMissing(AttributeMissingError::new("alternate", "name"))
    );
}

#[test]
fn game_from_identifiers() {
    assert_eq!(Game::from(LOTR_ID), Some(Game::LOTR));
    assert_eq!(Game::from(ARKHAM_HORROR_ID), Some(Game::ArkhamHorror));
    assert_eq!(Game::from("a21af4e8"), None);
}

#[test]
fn attribute_lookup_takes_last_duplicate() {
    let e = element("card", &[("name", "first"), ("name", "second")], vec![]);
    assert_eq!(e.attribute("name").map(|s| s.as_str()), Some("second"));
    assert!(e.attribute("id").is_none());
}

#[test]
fn error_messages() {
    assert_eq!(
        NoMatchingGameError::new("abc").message(),
        "This is not a valid Game ID: 'abc'."
    );
    assert_eq!(PropertyMissingError::new("cards").message(), "Could not find property 'cards'.");
    assert_eq!(
        AttributeMissingError::new("set", "id").message(),
        "<set> is missing attribute 'id'."
    );
}

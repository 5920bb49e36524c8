//! Sets and cards as the OCTGN set definitions describe them, read from the
//! element tree of a set document.

use vstd::prelude::*;
use vstd::string::StringExecFns;

verus! {

pub const LOTR_ID: &'static str = "a21af4e8-be4b-4cda-a6b6-534f9717391f";

pub const ARKHAM_HORROR_ID: &'static str = "a6d114c7-2e2a-4896-ad8c-0330605c90bf";

/// A game identifier that names no known game.
#[derive(Debug, PartialEq, Eq)]
pub struct NoMatchingGameError {
    pub game_id: String,
}

impl NoMatchingGameError {
    pub fn new(game_id: &str) -> (r: Self)
        ensures
            r.game_id@ == game_id@,
    {
        Self { game_id: game_id.to_owned() }
    }

    pub fn message(&self) -> (r: String)
        ensures
            r@ == "This is not a valid Game ID: '"@ + self.game_id@ + "'."@,
    {
        String::from_str("This is not a valid Game ID: '").concat(self.game_id.as_str()).concat("'.")
    }
}

#[derive(Debug, PartialEq, Eq, Structural, Clone, Copy)]
pub enum Game {
    LOTR,
    ArkhamHorror,
}

/// The game that an identifier names, if any.
pub open spec fn game_of(game_id: Seq<char>) -> Option<Game> {
    if game_id == LOTR_ID@ {
        Some(Game::LOTR)
    } else if game_id == ARKHAM_HORROR_ID@ {
        Some(Game::ArkhamHorror)
    } else {
        None
    }
}

impl Game {
    pub fn from(s: &str) -> (r: Option<Self>)
        ensures
            r == game_of(s@),
    {
        let id = s.to_owned();
        if id == LOTR_ID.to_owned() {
            Some(Game::LOTR)
        } else if id == ARKHAM_HORROR_ID.to_owned() {
            Some(Game::ArkhamHorror)
        } else {
            None
        }
    }
}

/// A child element that a set document must have is absent.
#[derive(Debug, PartialEq, Eq)]
pub struct PropertyMissingError {
    pub property: String,
}

impl PropertyMissingError {
    pub fn new(property: &str) -> (r: Self)
        ensures
            r.property@ == property@,
    {
        PropertyMissingError { property: property.to_owned() }
    }

    pub fn message(&self) -> (r: String)
        ensures
            r@ == "Could not find property '"@ + self.property@ + "'."@,
    {
        String::from_str("Could not find property '").concat(self.property.as_str()).concat("'.")
    }
}

/// An element lacks an attribute that it must carry.
#[derive(Debug, PartialEq, Eq)]
pub struct AttributeMissingError {
    pub tag: String,
    pub attribute: String,
}

impl AttributeMissingError {
    pub fn new(tag: &str, attribute: &str) -> (r: Self)
        ensures
            r.tag@ == tag@,
            r.attribute@ == attribute@,
    {
        Self { tag: tag.to_owned(), attribute: attribute.to_owned() }
    }

    pub fn message(&self) -> (r: String)
        ensures
            r@ == "<"@ + self.tag@ + "> is missing attribute '"@ + self.attribute@ + "'."@,
    {
        String::from_str("<").concat(self.tag.as_str()).concat("> is missing attribute '").concat(
            self.attribute.as_str(),
        ).concat("'.")
    }
}

/// A card of a local set. `back_name` is present when the card has a second
/// face; it may repeat `name` or name a different card.
#[derive(Debug, Hash, PartialEq, Eq)]
pub struct Card {
    pub id: String,
    pub name: String,
    pub back_name: Option<String>,
}

/// A local set: its cards in document order, and the game it belongs to.
#[derive(Debug)]
pub struct OctgnSet {
    pub id: String,
    pub name: String,
    pub cards: Vec<Card>,
    pub game: Game,
}

/// One attribute of an element, as written in the document.
pub struct XmlAttribute {
    pub name: String,
    pub value: String,
}

/// An element of a set document: its tag, its attributes in document order
/// and its child elements in document order.
pub struct XmlElement {
    pub tag: String,
    pub attributes: Vec<XmlAttribute>,
    pub children: Vec<XmlElement>,
}

/// Why a set document could not be read.
#[derive(Debug, PartialEq, Eq)]
pub enum SetError {
    AttributeMissing(AttributeMissingError),
    NoMatchingGame(NoMatchingGameError),
    PropertyMissing(PropertyMissingError),
}

pub enum SetErrorView {
    AttributeMissing(Seq<char>, Seq<char>),
    NoMatchingGame(Seq<char>),
    PropertyMissing(Seq<char>),
}

pub struct CardView {
    pub id: Seq<char>,
    pub name: Seq<char>,
    pub back_name: Option<Seq<char>>,
}

pub struct SetView {
    pub id: Seq<char>,
    pub name: Seq<char>,
    pub cards: Seq<CardView>,
    pub game: Game,
}

pub open spec fn card_view(c: Card) -> CardView {
    CardView {
        id: c.id@,
        name: c.name@,
        back_name: match c.back_name {
            Some(b) => Some(b@),
            None => None,
        },
    }
}

pub open spec fn set_view(s: OctgnSet) -> SetView {
    SetView {
        id: s.id@,
        name: s.name@,
        cards: s.cards@.map_values(|c: Card| card_view(c)),
        game: s.game,
    }
}

pub open spec fn error_view(e: SetError) -> SetErrorView {
    match e {
        SetError::AttributeMissing(a) => SetErrorView::AttributeMissing(a.tag@, a.attribute@),
        SetError::NoMatchingGame(g) => SetErrorView::NoMatchingGame(g.game_id@),
        SetError::PropertyMissing(p) => SetErrorView::PropertyMissing(p.property@),
    }
}

/// The value of the attribute `name`; where the name repeats, the last one.
pub open spec fn lookup(attributes: Seq<XmlAttribute>, name: Seq<char>) -> Option<Seq<char>>
    decreases attributes.len(),
{
    if attributes.len() == 0 {
        None
    } else if attributes.last().name@ == name {
        Some(attributes.last().value@)
    } else {
        lookup(attributes.drop_last(), name)
    }
}

/// The first element of `children` with tag `tag`.
pub open spec fn first_tagged(children: Seq<XmlElement>, tag: Seq<char>) -> Option<XmlElement>
    decreases children.len(),
{
    if children.len() == 0 {
        None
    } else if children[0].tag@ == tag {
        Some(children[0])
    } else {
        first_tagged(children.skip(1), tag)
    }
}

/// The children that describe cards: those that carry any attribute.
pub open spec fn card_elements(children: Seq<XmlElement>) -> Seq<XmlElement>
    decreases children.len(),
{
    if children.len() == 0 {
        seq![]
    } else if children.last().attributes@.len() > 0 {
        card_elements(children.drop_last()).push(children.last())
    } else {
        card_elements(children.drop_last())
    }
}

/// A card element read as a card: `id` and `name` are required, and the
/// `name` of its first `alternate` child, if it has one, names the back.
pub open spec fn card_spec(e: XmlElement) -> Result<CardView, SetErrorView> {
    match lookup(e.attributes@, "id"@) {
        None => Err(SetErrorView::AttributeMissing(e.tag@, "id"@)),
        Some(id) => match lookup(e.attributes@, "name"@) {
            None => Err(SetErrorView::AttributeMissing(e.tag@, "name"@)),
            Some(name) => match first_tagged(e.children@, "alternate"@) {
                None => Ok(CardView { id, name, back_name: None }),
                Some(alt) => match lookup(alt.attributes@, "name"@) {
                    None => Err(SetErrorView::AttributeMissing(alt.tag@, "name"@)),
                    Some(back) => Ok(CardView { id, name, back_name: Some(back) }),
                },
            },
        },
    }
}

/// The card elements read in order; the first that fails decides the error.
pub open spec fn cards_spec(elements: Seq<XmlElement>) -> Result<Seq<CardView>, SetErrorView>
    decreases elements.len(),
{
    if elements.len() == 0 {
        Ok(seq![])
    } else {
        match cards_spec(elements.drop_last()) {
            Err(e) => Err(e),
            Ok(cards) => match card_spec(elements.last()) {
                Err(e) => Err(e),
                Ok(c) => Ok(cards.push(c)),
            },
        }
    }
}

/// The set that a set element describes: `id`, `name` and a known `gameId`
/// are required, as is a `cards` child, whose card elements give the cards.
pub open spec fn set_spec(root: XmlElement) -> Result<SetView, SetErrorView> {
    match lookup(root.attributes@, "id"@) {
        None => Err(SetErrorView::AttributeMissing(root.tag@, "id"@)),
        Some(id) => match lookup(root.attributes@, "name"@) {
            None => Err(SetErrorView::AttributeMissing(root.tag@, "name"@)),
            Some(name) => match lookup(root.attributes@, "gameId"@) {
                None => Err(SetErrorView::AttributeMissing(root.tag@, "gameId"@)),
                Some(game_id) => match game_of(game_id) {
                    None => Err(SetErrorView::NoMatchingGame(game_id)),
                    Some(game) => match first_tagged(root.children@, "cards"@) {
                        None => Err(SetErrorView::PropertyMissing("cards"@)),
                        Some(cards) => match cards_spec(card_elements(cards.children@)) {
                            Err(e) => Err(e),
                            Ok(cards) => Ok(SetView { id, name, cards, game }),
                        },
                    },
                },
            },
        },
    }
}

impl XmlElement {
    /// The value of the attribute `name`; where the name repeats, the last one.
    pub fn attribute(&self, name: &str) -> (r: Option<&String>)
        ensures
            r matches Some(v) ==> lookup(self.attributes@, name@) == Some(v@),
            r is None ==> lookup(self.attributes@, name@) is None,
    {
        let key = name.to_owned();
        let mut k: usize = self.attributes.len();
        proof {
            assert(self.attributes@.take(k as int) =~= self.attributes@);
        }
        while k > 0
            invariant
                k <= self.attributes@.len(),
                key@ == name@,
                lookup(self.attributes@, name@) == lookup(self.attributes@.take(k as int), name@),
            decreases k,
        {
            proof {
                assert(self.attributes@.take(k as int).drop_last() =~= self.attributes@.take(
                    k - 1,
                ));
            }
            if self.attributes[k - 1].name == key {
                return Some(&self.attributes[k - 1].value);
            }
            k = k - 1;
        }
        None
    }

    /// The first child element with tag `tag`.
    pub fn first_child(&self, tag: &str) -> (r: Option<&XmlElement>)
        ensures
            r matches Some(c) ==> first_tagged(self.children@, tag@) == Some(*c),
            r is None ==> first_tagged(self.children@, tag@) is None,
    {
        let key = tag.to_owned();
        let mut k: usize = 0;
        proof {
            assert(self.children@.skip(0) =~= self.children@);
        }
        while k < self.children.len()
            invariant
                k <= self.children@.len(),
                key@ == tag@,
                first_tagged(self.children@, tag@) == first_tagged(
                    self.children@.skip(k as int),
                    tag@,
                ),
            decreases self.children@.len() - k,
        {
            proof {
                assert(self.children@.skip(k as int).skip(1) =~= self.children@.skip(k + 1));
            }
            if self.children[k].tag == key {
                return Some(&self.children[k]);
            }
            k = k + 1;
        }
        None
    }
}

fn missing_attribute(tag: &String, attribute: &str) -> (r: SetError)
    ensures
        error_view(r) == SetErrorView::AttributeMissing(tag@, attribute@),
{
    SetError::AttributeMissing(AttributeMissingError::new(tag.as_str(), attribute))
}

/// Reads one card element.
fn parse_card(e: &XmlElement) -> (r: Result<Card, SetError>)
    ensures
        match (r, card_spec(*e)) {
            (Ok(c), Ok(v)) => card_view(c) == v,
            (Err(x), Err(v)) => error_view(x) == v,
            _ => false,
        },
{
    let id = match e.attribute("id") {
        None => return Err(missing_attribute(&e.tag, "id")),
        Some(id) => id.clone(),
    };
    let name = match e.attribute("name") {
        None => return Err(missing_attribute(&e.tag, "name")),
        Some(name) => name.clone(),
    };
    let back_name = match e.first_child("alternate") {
        None => None,
        Some(alt) => match alt.attribute("name") {
            None => return Err(missing_attribute(&alt.tag, "name")),
            Some(back) => Some(back.clone()),
        },
    };
    Ok(Card { id, name, back_name })
}

impl OctgnSet {
    /// Reads a set from the root element of its document.
    pub fn new(root: &XmlElement) -> (r: Result<OctgnSet, SetError>)
        ensures
            match (r, set_spec(*root)) {
                (Ok(s), Ok(v)) => set_view(s) == v,
                (Err(x), Err(v)) => error_view(x) == v,
                _ => false,
            },
    {
        let id = match root.attribute("id") {
            None => return Err(missing_attribute(&root.tag, "id")),
            Some(id) => id.clone(),
        };
        let name = match root.attribute("name") {
            None => return Err(missing_attribute(&root.tag, "name")),
            Some(name) => name.clone(),
        };
        let game_id = match root.attribute("gameId") {
            None => return Err(missing_attribute(&root.tag, "gameId")),
            Some(game_id) => game_id,
        };
        let game = match Game::from(game_id.as_str()) {
            None => return Err(SetError::NoMatchingGame(NoMatchingGameError::new(game_id.as_str()))),
            Some(game) => game,
        };
        let cards_node = match root.first_child("cards") {
            None => return Err(SetError::PropertyMissing(PropertyMissingError::new("cards"))),
            Some(node) => node,
        };
        let children = &cards_node.children;
        let mut cards: Vec<Card> = Vec::new();
        let mut k: usize = 0;
        proof {
            assert(children@.take(0) =~= Seq::<XmlElement>::empty());
            assert(cards@.map_values(|c: Card| card_view(c)) =~= Seq::<CardView>::empty());
        }
        while k < children.len()
            invariant
                k <= children@.len(),
                children == &cards_node.children,
                lookup(root.attributes@, "id"@) == Some(id@),
                lookup(root.attributes@, "name"@) == Some(name@),
                lookup(root.attributes@, "gameId"@) == Some(game_id@),
                game_of(game_id@) == Some(game),
                first_tagged(root.children@, "cards"@) == Some(*cards_node),
                cards_spec(card_elements(children@.take(k as int))) == Ok::<
                    Seq<CardView>,
                    SetErrorView,
                >(cards@.map_values(|c: Card| card_view(c))),
            decreases children@.len() - k,
        {
            proof {
                lemma_card_elements_step(children@, k as int);
                lemma_cards_spec_push(card_elements(children@.take(k as int)), children@[k as int]);
            }
            if children[k].attributes.len() > 0 {
                let card = parse_card(&children[k]);
                match card {
                    Err(e) => {
                        proof {
                            lemma_cards_spec_error(children@, k as int, children@.len() as int);
                            assert(children@.take(children@.len() as int) =~= children@);
                        }
                        return Err(e);
                    },
                    Ok(card) => {
                        let ghost before = cards@;
                        cards.push(card);
                        proof {
                            assert(cards@.map_values(|c: Card| card_view(c)) =~= before.map_values(
                                |c: Card| card_view(c),
                            ).push(card_view(card)));
                        }
                    },
                }
            }
            k = k + 1;
        }
        proof {
            assert(children@.take(k as int) =~= children@);
        }
        Ok(OctgnSet { id, name, cards, game })
    }
}

proof fn lemma_card_elements_step(children: Seq<XmlElement>, k: int)
    requires
        0 <= k < children.len(),
    ensures
        card_elements(children.take(k + 1)) == if children[k].attributes@.len() > 0 {
            card_elements(children.take(k)).push(children[k])
        } else {
            card_elements(children.take(k))
        },
{
    let t = children.take(k + 1);
    assert(t.drop_last() =~= children.take(k));
    assert(t.last() == children[k]);
}

proof fn lemma_cards_spec_push(elements: Seq<XmlElement>, e: XmlElement)
    ensures
        cards_spec(elements.push(e)) == match cards_spec(elements) {
            Err(x) => Err(x),
            Ok(cards) => match card_spec(e) {
                Err(x) => Err(x),
                Ok(c) => Ok(cards.push(c)),
            },
        },
{
    assert(elements.push(e).drop_last() =~= elements);
}

/// Once a card element fails, the reading of every longer prefix fails the
/// same way.
proof fn lemma_cards_spec_error(children: Seq<XmlElement>, k: int, n: int)
    requires
        0 <= k < n <= children.len(),
        children[k].attributes@.len() > 0,
        cards_spec(card_elements(children.take(k))) is Ok,
        card_spec(children[k]) is Err,
    ensures
        cards_spec(card_elements(children.take(n))) == Err::<Seq<CardView>, SetErrorView>(
            card_spec(children[k])->Err_0,
        ),
    decreases n,
{
    lemma_card_elements_step(children, n - 1);
    if n > k + 1 {
        lemma_cards_spec_error(children, k, n - 1);
    }
    if children[n - 1].attributes@.len() > 0 {
        lemma_cards_spec_push(card_elements(children.take(n - 1)), children[n - 1]);
    }
}

} // verus!

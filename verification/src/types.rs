//! The records that the statistics are computed from, and what each is as a
//! mathematical value.

use vstd::prelude::*;
use vstd::std_specs::convert::FromSpecImpl;

verus! {

/// A card of the catalog, with the usage counters that the catalog keeps for it.
#[derive(Debug, PartialEq, Eq)]
pub struct Card {
    pub id: String,
    pub sfid: String,
    pub name: String,
    pub colours: Vec<String>,
    pub type_line: String,
    pub cmc: usize,
    pub decks: Vec<String>,
    pub mainboard_count: usize,
    pub sideboard_count: usize,
}

/// What a [`Card`] is, as a mathematical value.
pub struct CardView {
    pub id: Seq<char>,
    pub sfid: Seq<char>,
    pub name: Seq<char>,
    pub colours: Seq<Seq<char>>,
    pub type_line: Seq<char>,
    pub cmc: nat,
    pub decks: Seq<Seq<char>>,
    pub mainboard_count: nat,
    pub sideboard_count: nat,
}

/// A card as it stands in a board of a deck. A card that a deck plays four
/// times stands four times in the board.
#[derive(Debug, PartialEq, Eq)]
pub struct DeckCard {
    pub id: String,
    pub sfid: String,
    pub name: String,
    pub colours: Vec<String>,
    pub type_line: String,
    pub cmc: usize,
}

/// What a [`DeckCard`] is, as a mathematical value.
pub struct DeckCardView {
    pub id: Seq<char>,
    pub sfid: Seq<char>,
    pub name: Seq<char>,
    pub colours: Seq<Seq<char>>,
    pub type_line: Seq<char>,
    pub cmc: nat,
}

/// A decklist.
#[derive(Debug, PartialEq, Eq)]
pub struct Deck {
    pub id: String,
    pub currently_legal: bool,
    pub name: String,
    pub url: String,
    pub mainboard: Vec<DeckCard>,
    pub sideboard: Vec<DeckCard>,
    pub created: usize,
}

/// What a [`Deck`] is, as a mathematical value.
pub struct DeckView {
    pub id: Seq<char>,
    pub currently_legal: bool,
    pub name: Seq<char>,
    pub url: Seq<char>,
    pub mainboard: Seq<DeckCardView>,
    pub sideboard: Seq<DeckCardView>,
    pub created: nat,
}

/// A tournament: its identifier and the decks that took part, each as a pair
/// of deck identifier and label.
#[derive(Debug, PartialEq, Eq)]
pub struct Event {
    pub id: String,
    pub decks: Vec<(String, String)>,
}

/// What an [`Event`] is, as a mathematical value.
pub struct EventView {
    pub id: Seq<char>,
    pub decks: Seq<(Seq<char>, Seq<char>)>,
}

/// One tier of the points list: its rating and the cards placed at it.
#[derive(Debug, PartialEq, Eq)]
pub struct Point {
    pub rating: usize,
    pub cards: Vec<String>,
}

/// What a [`Point`] is, as a mathematical value.
pub struct PointView {
    pub rating: nat,
    pub cards: Seq<Seq<char>>,
}

/// The usage of one card over time: one sample
/// `(created, (mainboard copies, sideboard copies))` for each deck that holds
/// the card.
#[derive(Debug, PartialEq, Eq)]
pub struct UsageOverTime {
    pub id: String,
    /// (Date, (Mainboard, Sideboard))
    pub data: Vec<(usize, (usize, usize))>,
}

/// What a [`UsageOverTime`] is, as a mathematical value.
pub struct UsageOverTimeView {
    pub id: Seq<char>,
    pub data: Seq<(nat, (nat, nat))>,
}

/// A sample with its numbers as natural numbers.
pub open spec fn sample_view(sample: (usize, (usize, usize))) -> (nat, (nat, nat)) {
    (sample.0 as nat, (sample.1.0 as nat, sample.1.1 as nat))
}

/// A sequence of samples with their numbers as natural numbers.
pub open spec fn sample_views(samples: Seq<(usize, (usize, usize))>) -> Seq<(nat, (nat, nat))> {
    samples.map_values(|sample: (usize, (usize, usize))| sample_view(sample))
}

impl View for Card {
    type V = CardView;

    open spec fn view(&self) -> CardView {
        CardView {
            id: self.id@,
            sfid: self.sfid@,
            name: self.name@,
            colours: self.colours.deep_view(),
            type_line: self.type_line@,
            cmc: self.cmc as nat,
            decks: self.decks.deep_view(),
            mainboard_count: self.mainboard_count as nat,
            sideboard_count: self.sideboard_count as nat,
        }
    }
}

impl DeepView for Card {
    type V = CardView;

    open spec fn deep_view(&self) -> CardView {
        self@
    }
}

impl View for DeckCard {
    type V = DeckCardView;

    open spec fn view(&self) -> DeckCardView {
        DeckCardView {
            id: self.id@,
            sfid: self.sfid@,
            name: self.name@,
            colours: self.colours.deep_view(),
            type_line: self.type_line@,
            cmc: self.cmc as nat,
        }
    }
}

impl DeepView for DeckCard {
    type V = DeckCardView;

    open spec fn deep_view(&self) -> DeckCardView {
        self@
    }
}

impl View for Deck {
    type V = DeckView;

    open spec fn view(&self) -> DeckView {
        DeckView {
            id: self.id@,
            currently_legal: self.currently_legal,
            name: self.name@,
            url: self.url@,
            mainboard: self.mainboard.deep_view(),
            sideboard: self.sideboard.deep_view(),
            created: self.created as nat,
        }
    }
}

impl DeepView for Deck {
    type V = DeckView;

    open spec fn deep_view(&self) -> DeckView {
        self@
    }
}

impl View for Event {
    type V = EventView;

    open spec fn view(&self) -> EventView {
        EventView { id: self.id@, decks: self.decks.deep_view() }
    }
}

impl DeepView for Event {
    type V = EventView;

    open spec fn deep_view(&self) -> EventView {
        self@
    }
}

impl View for Point {
    type V = PointView;

    open spec fn view(&self) -> PointView {
        PointView { rating: self.rating as nat, cards: self.cards.deep_view() }
    }
}

impl DeepView for Point {
    type V = PointView;

    open spec fn deep_view(&self) -> PointView {
        self@
    }
}

impl View for UsageOverTime {
    type V = UsageOverTimeView;

    open spec fn view(&self) -> UsageOverTimeView {
        UsageOverTimeView {
            id: self.id@,
            data: sample_views(self.data@),
        }
    }
}

impl DeepView for UsageOverTime {
    type V = UsageOverTimeView;

    open spec fn deep_view(&self) -> UsageOverTimeView {
        self@
    }
}

/// The card without the counters of the catalog.
pub open spec fn display_card(card: CardView) -> DeckCardView {
    DeckCardView {
        id: card.id,
        sfid: card.sfid,
        name: card.name,
        colours: card.colours,
        type_line: card.type_line,
        cmc: card.cmc,
    }
}

/// A copy of a list of strings.
pub fn clone_strings(items: &Vec<String>) -> (copy: Vec<String>)
    ensures
        copy.deep_view() == items.deep_view(),
{
    let mut copy: Vec<String> = Vec::with_capacity(items.len());
    let mut i: usize = 0;
    while i < items.len()
        invariant
            i <= items.len(),
            copy.len() == i,
            forall|j: int| 0 <= j < i ==> copy[j]@ == items[j]@,
        decreases items.len() - i,
    {
        copy.push(items[i].clone());
        i += 1;
    }
    assert(copy.deep_view() =~= items.deep_view());
    copy
}

/// A copy of a board.
pub fn clone_cards(cards: &Vec<DeckCard>) -> (copy: Vec<DeckCard>)
    ensures
        copy.deep_view() == cards.deep_view(),
{
    let mut copy: Vec<DeckCard> = Vec::with_capacity(cards.len());
    let mut i: usize = 0;
    while i < cards.len()
        invariant
            i <= cards.len(),
            copy.len() == i,
            forall|j: int| 0 <= j < i ==> copy[j]@ == cards[j]@,
        decreases cards.len() - i,
    {
        copy.push(cards[i].clone());
        i += 1;
    }
    assert(copy.deep_view() =~= cards.deep_view());
    copy
}

impl Clone for DeckCard {
    fn clone(&self) -> (copy: Self)
        ensures
            copy@ == self@,
    {
        DeckCard {
            id: self.id.clone(),
            sfid: self.sfid.clone(),
            name: self.name.clone(),
            colours: clone_strings(&self.colours),
            type_line: self.type_line.clone(),
            cmc: self.cmc,
        }
    }
}

impl Clone for Card {
    fn clone(&self) -> (copy: Self)
        ensures
            copy@ == self@,
    {
        Card {
            id: self.id.clone(),
            sfid: self.sfid.clone(),
            name: self.name.clone(),
            colours: clone_strings(&self.colours),
            type_line: self.type_line.clone(),
            cmc: self.cmc,
            decks: clone_strings(&self.decks),
            mainboard_count: self.mainboard_count,
            sideboard_count: self.sideboard_count,
        }
    }
}

impl Clone for Deck {
    fn clone(&self) -> (copy: Self)
        ensures
            copy@ == self@,
    {
        Deck {
            id: self.id.clone(),
            currently_legal: self.currently_legal,
            name: self.name.clone(),
            url: self.url.clone(),
            mainboard: clone_cards(&self.mainboard),
            sideboard: clone_cards(&self.sideboard),
            created: self.created,
        }
    }
}

impl Clone for Event {
    fn clone(&self) -> (copy: Self)
        ensures
            copy@ == self@,
    {
        let mut decks: Vec<(String, String)> = Vec::with_capacity(self.decks.len());
        let mut i: usize = 0;
        while i < self.decks.len()
            invariant
                i <= self.decks.len(),
                decks.len() == i,
                forall|j: int| 0 <= j < i ==> decks[j].deep_view() == self.decks[j].deep_view(),
            decreases self.decks.len() - i,
        {
            decks.push((self.decks[i].0.clone(), self.decks[i].1.clone()));
            i += 1;
        }
        assert(decks.deep_view() =~= self.decks.deep_view());
        Event { id: self.id.clone(), decks }
    }
}

impl Clone for Point {
    fn clone(&self) -> (copy: Self)
        ensures
            copy@ == self@,
    {
        Point { rating: self.rating, cards: clone_strings(&self.cards) }
    }
}

impl Clone for UsageOverTime {
    fn clone(&self) -> (copy: Self)
        ensures
            copy@ == self@,
    {
        let mut data: Vec<(usize, (usize, usize))> = Vec::with_capacity(self.data.len());
        let mut i: usize = 0;
        while i < self.data.len()
            invariant
                i <= self.data.len(),
                data@ == self.data@.take(i as int),
            decreases self.data.len() - i,
        {
            data.push(self.data[i]);
            i += 1;
        }
        assert(data@ =~= self.data@);
        UsageOverTime { id: self.id.clone(), data }
    }
}

impl Card {
    /// The card as it is shown beside the statistics: a copy without the
    /// counters of the catalog.
    pub fn to_deck_card(&self) -> (shown: DeckCard)
        ensures
            shown@ == display_card(self@),
    {
        DeckCard {
            id: self.id.clone(),
            sfid: self.sfid.clone(),
            name: self.name.clone(),
            colours: clone_strings(&self.colours),
            type_line: self.type_line.clone(),
            cmc: self.cmc,
        }
    }
}

impl From<Card> for DeckCard {
    fn from(card: Card) -> (shown: DeckCard)
        ensures
            shown@ == display_card(card@),
    {
        DeckCard {
            id: card.id,
            sfid: card.sfid,
            name: card.name,
            colours: card.colours,
            type_line: card.type_line,
            cmc: card.cmc,
        }
    }
}

impl FromSpecImpl<Card> for DeckCard {
    open spec fn obeys_from_spec() -> bool {
        true
    }

    open spec fn from_spec(card: Card) -> DeckCard {
        DeckCard {
            id: card.id,
            sfid: card.sfid,
            name: card.name,
            colours: card.colours,
            type_line: card.type_line,
            cmc: card.cmc,
        }
    }
}

} // verus!

//! The points table: which cards are pointed.

use vstd::prelude::*;
use vstd::hash_set::StringHashSet;
use crate::types::{Point, PointView};

verus! {

/// The pointed set: the identifiers that stand in the card list of at least
/// one tier, whatever its rating.
pub open spec fn pointed_ids(points: Seq<PointView>) -> Set<Seq<char>> {
    Set::new(
        |id: Seq<char>| exists|i: int| 0 <= i < points.len() && (#[trigger] points[i]).cards.contains(id),
    )
}

/// More tiers never take an identifier out of the pointed set, and the last
/// tier adds exactly its own cards.
pub proof fn lemma_pointed_ids_push(points: Seq<PointView>, tier: PointView)
    ensures
        pointed_ids(points.push(tier)) == pointed_ids(points).union(tier.cards.to_set()),
{
    let more = points.push(tier);
    assert forall|id: Seq<char>| pointed_ids(more).contains(id) <==> pointed_ids(points).union(
        tier.cards.to_set(),
    ).contains(id) by {
        if pointed_ids(more).contains(id) {
            let i = choose|i: int| 0 <= i < more.len() && (#[trigger] more[i]).cards.contains(id);
            if i < points.len() {
                assert(points[i].cards.contains(id));
            }
        }
        if pointed_ids(points).contains(id) {
            let i = choose|i: int|
                0 <= i < points.len() && (#[trigger] points[i]).cards.contains(id);
            assert(more[i].cards.contains(id));
        }
        if tier.cards.to_set().contains(id) {
            assert(more[points.len() as int].cards.contains(id));
        }
    }
    assert(pointed_ids(more) =~= pointed_ids(points).union(tier.cards.to_set()));
}

/// Whether the card stands in the card list of at least one tier of the points
/// table. This walks the whole table: to ask for many cards, build a
/// [`PointedSet`] once and ask that.
pub fn is_pointed(card_id: &str, points: &Vec<Point>) -> (pointed: bool)
    ensures
        pointed == pointed_ids(points.deep_view()).contains(card_id@),
{
    let wanted = card_id.to_owned();
    let mut i: usize = 0;
    while i < points.len()
        invariant
            i <= points.len(),
            wanted@ == card_id@,
            forall|a: int| 0 <= a < i ==> !(#[trigger] points.deep_view()[a]).cards.contains(card_id@),
        decreases points.len() - i,
    {
        let cards = &points[i].cards;
        let mut j: usize = 0;
        while j < cards.len()
            invariant
                j <= cards.len(),
                i < points.len(),
                cards == &points[i as int].cards,
                wanted@ == card_id@,
                forall|b: int| 0 <= b < j ==> cards[b]@ != card_id@,
            decreases cards.len() - j,
        {
            if cards[j] == wanted {
                proof {
                    assert(points.deep_view()[i as int].cards[j as int] == card_id@);
                }
                return true;
            }
            j += 1;
        }
        i += 1;
    }
    false
}

/// The pointed set of a run, flattened out of the points table once so that
/// each later question is one hash lookup.
pub struct PointedSet {
    ids: StringHashSet,
}

impl View for PointedSet {
    type V = Set<Seq<char>>;

    closed spec fn view(&self) -> Set<Seq<char>> {
        self.ids@
    }
}

impl PointedSet {
    /// Whether the card is pointed.
    pub fn contains(&self, card_id: &str) -> (pointed: bool)
        ensures
            pointed == self@.contains(card_id@),
    {
        self.ids.contains(card_id)
    }
}

/// The pointed set of a points table: the union of the card lists of all its
/// tiers, whatever their ratings.
pub fn points(entries: &Vec<Point>) -> (set: PointedSet)
    ensures
        set@ == pointed_ids(entries.deep_view()),
{
    let mut ids = StringHashSet::new();
    let ghost all = entries.deep_view();
    let mut i: usize = 0;
    proof {
        assert(all.take(0) =~= Seq::empty());
        assert(pointed_ids(Seq::empty()) =~= Set::empty());
    }
    while i < entries.len()
        invariant
            i <= entries.len(),
            all == entries.deep_view(),
            ids@ == pointed_ids(all.take(i as int)),
        decreases entries.len() - i,
    {
        let cards = &entries[i].cards;
        let ghost before = ids@;
        let ghost tier = cards.deep_view();
        let mut j: usize = 0;
        while j < cards.len()
            invariant
                j <= cards.len(),
                tier == cards.deep_view(),
                ids@ == before.union(tier.take(j as int).to_set()),
            decreases cards.len() - j,
        {
            proof {
                assert(tier.take(j + 1) =~= tier.take(j as int).push(cards[j as int]@));
                tier.take(j as int).lemma_push_to_set_commute(cards[j as int]@);
            }
            let _ = ids.insert(cards[j].clone());
            j += 1;
        }
        proof {
            assert(tier.take(j as int) =~= tier);
            assert(all.take(i + 1) =~= all.take(i as int).push(all[i as int]));
            lemma_pointed_ids_push(all.take(i as int), all[i as int]);
        }
        i += 1;
    }
    proof {
        assert(all.take(i as int) =~= all);
    }
    PointedSet { ids }
}

} // verus!

//! Counting how often each item of a sequence occurs.

use vstd::prelude::*;
use crate::ordered_map::OrderedMap;
use crate::types::{DeckCard, DeckCardView};

verus! {

/// How often `key` stands in `items`.
pub open spec fn occurrences<A>(items: Seq<A>, key: A) -> nat
    decreases items.len(),
{
    if items.len() == 0 {
        0
    } else {
        occurrences(items.drop_last(), key) + if items.last() == key {
            1nat
        } else {
            0nat
        }
    }
}

/// The count that a map of counts gives a key: zero where the key has no
/// entry.
pub open spec fn count_of(counts: Map<Seq<char>, nat>, key: Seq<char>) -> nat {
    if counts.contains_key(key) {
        counts[key]
    } else {
        0
    }
}

/// The counts after `items` have been counted on top of `base`: each key of
/// `base` and each item has an entry, with the count of `base` plus the number
/// of times the key stands in `items`.
pub open spec fn add_tally(base: Map<Seq<char>, nat>, items: Seq<Seq<char>>) -> Map<
    Seq<char>,
    nat,
> {
    Map::new(
        |k: Seq<char>| base.contains_key(k) || items.contains(k),
        |k: Seq<char>| count_of(base, k) + occurrences(items, k),
    )
}

/// The count of each item of `items`: an entry for each item that occurs, with
/// the number of times it occurs.
pub open spec fn tally(items: Seq<Seq<char>>) -> Map<Seq<char>, nat> {
    add_tally(Map::empty(), items)
}

/// Whether every count can be held in a `usize`.
pub open spec fn fits(counts: Map<Seq<char>, nat>) -> bool {
    forall|k: Seq<char>| counts.contains_key(k) ==> #[trigger] counts[k] <= usize::MAX
}

/// The counts that a map of machine integers holds.
pub open spec fn counts_of(held: Map<Seq<char>, usize>) -> Map<Seq<char>, nat> {
    held.map_values(|n: usize| n as nat)
}

/// `base` with each item of `items` that it does not hold yet put behind it,
/// in the order in which each first occurs.
pub open spec fn distinct_onto<A>(base: Seq<A>, items: Seq<A>) -> Seq<A>
    decreases items.len(),
{
    if items.len() == 0 {
        base
    } else {
        let before = distinct_onto(base, items.drop_last());
        if before.contains(items.last()) {
            before
        } else {
            before.push(items.last())
        }
    }
}

/// The items of a sequence, each once, in the order in which each first
/// occurs.
pub open spec fn distinct<A>(items: Seq<A>) -> Seq<A> {
    distinct_onto(Seq::empty(), items)
}

/// Taking the distinct items of two sequences one after the other is taking
/// those of the two in a row.
pub proof fn lemma_distinct_onto_concat<A>(base: Seq<A>, first: Seq<A>, second: Seq<A>)
    ensures
        distinct_onto(distinct_onto(base, first), second) == distinct_onto(base, first + second),
    decreases second.len(),
{
    if second.len() == 0 {
        assert(first + second =~= first);
    } else {
        assert((first + second).drop_last() =~= first + second.drop_last());
        lemma_distinct_onto_concat(base, first, second.drop_last());
    }
}

/// A sequence without duplicates that is extended by distinct items holds the
/// items of both and still no duplicates.
pub proof fn lemma_distinct_onto_holds<A>(base: Seq<A>, items: Seq<A>)
    requires
        base.no_duplicates(),
    ensures
        distinct_onto(base, items).no_duplicates(),
        forall|x: A| #[trigger]
            distinct_onto(base, items).contains(x) <==> base.contains(x) || items.contains(x),
    decreases items.len(),
{
    let result = distinct_onto(base, items);
    if items.len() > 0 {
        let rest = items.drop_last();
        let before = distinct_onto(base, rest);
        lemma_distinct_onto_holds(base, rest);
        assert forall|x: A| #[trigger] result.contains(x) <==> base.contains(x) || items.contains(
            x,
        ) by {
            if items.contains(x) {
                let i = items.index_of(x);
                assert(0 <= i < items.len() && items[i] == x);
                if i < rest.len() {
                    assert(rest[i] == x);
                }
            }
            if rest.contains(x) {
                let i = rest.index_of(x);
                assert(0 <= i < rest.len() && rest[i] == x);
                assert(items[i] == x);
            }
            if x == items.last() {
                assert(items[items.len() - 1] == x);
            }
            if !before.contains(items.last()) {
                if result.contains(x) {
                    let i = result.index_of(x);
                    assert(0 <= i < result.len() && result[i] == x);
                    if i < before.len() {
                        assert(before[i] == x);
                    }
                }
                if before.contains(x) {
                    let i = before.index_of(x);
                    assert(0 <= i < before.len() && before[i] == x);
                    assert(result[i] == x);
                }
                assert(result[before.len() as int] == items.last());
            }
        }
        if !before.contains(items.last()) {
            assert forall|i: int, j: int|
                0 <= i < result.len() && 0 <= j < result.len() && i != j implies result[i]
                != result[j] by {
                if i < before.len() {
                    assert(before[i] == result[i]);
                }
                if j < before.len() {
                    assert(before[j] == result[j]);
                }
            }
        }
    }
}

/// Extending by the distinct items of a sequence is extending by the sequence.
pub proof fn lemma_distinct_onto_distinct<A>(base: Seq<A>, items: Seq<A>)
    requires
        base.no_duplicates(),
    ensures
        distinct_onto(base, distinct(items)) == distinct_onto(base, items),
    decreases items.len(),
{
    if items.len() > 0 {
        let rest = items.drop_last();
        let last = items.last();
        lemma_distinct_onto_distinct(base, rest);
        lemma_distinct_onto_holds(Seq::<A>::empty(), rest);
        lemma_distinct_onto_holds(base, rest);
        lemma_distinct_onto_holds(base, distinct(rest));
        if !distinct(rest).contains(last) {
            assert(distinct(rest).push(last).drop_last() =~= distinct(rest));
        }
    }
}

/// The identifiers of a sequence of cards, in order.
pub open spec fn card_ids(cards: Seq<DeckCardView>) -> Seq<Seq<char>> {
    cards.map_values(|c: DeckCardView| c.id)
}

/// One more item adds one to its own count and leaves the others.
pub proof fn lemma_occurrences_push<A>(items: Seq<A>, item: A, key: A)
    ensures
        occurrences(items.push(item), key) == occurrences(items, key) + if item == key {
            1nat
        } else {
            0nat
        },
{
    assert(items.push(item).drop_last() =~= items);
}

/// The count over two sequences in a row is the sum of the two counts.
pub proof fn lemma_occurrences_concat<A>(first: Seq<A>, second: Seq<A>, key: A)
    ensures
        occurrences(first + second, key) == occurrences(first, key) + occurrences(second, key),
    decreases second.len(),
{
    if second.len() == 0 {
        assert(first + second =~= first);
    } else {
        assert((first + second).drop_last() =~= first + second.drop_last());
        lemma_occurrences_concat(first, second.drop_last(), key);
    }
}

/// An item is counted at least once exactly if it occurs, and never more often
/// than there are items.
pub proof fn lemma_occurrences_bounds<A>(items: Seq<A>, key: A)
    ensures
        occurrences(items, key) > 0 <==> items.contains(key),
        occurrences(items, key) <= items.len(),
    decreases items.len(),
{
    if items.len() > 0 {
        let rest = items.drop_last();
        lemma_occurrences_bounds(rest, key);
        if items.last() == key {
            assert(items[items.len() - 1] == key);
        } else if rest.contains(key) {
            let i = rest.index_of(key);
            assert(0 <= i < rest.len() && rest[i] == key);
            assert(items[i] == key);
        } else if items.contains(key) {
            let i = items.index_of(key);
            assert(0 <= i < items.len() && items[i] == key);
            assert(rest[i] == key);
        }
    }
}

/// A prefix never counts more than the whole.
pub proof fn lemma_occurrences_prefix<A>(items: Seq<A>, n: int, key: A)
    requires
        0 <= n <= items.len(),
    ensures
        occurrences(items.take(n), key) <= occurrences(items, key),
{
    assert(items =~= items.take(n) + items.skip(n));
    lemma_occurrences_concat(items.take(n), items.skip(n), key);
}

/// Counting nothing changes nothing.
pub proof fn lemma_add_tally_empty(base: Map<Seq<char>, nat>)
    ensures
        add_tally(base, Seq::empty()) == base,
{
    assert(add_tally(base, Seq::empty()) =~= base);
}

/// Counting one more item adds one to the count of that item.
pub proof fn lemma_add_tally_push(base: Map<Seq<char>, nat>, items: Seq<Seq<char>>, item: Seq<char>)
    ensures
        add_tally(base, items.push(item)) == add_tally(base, items).insert(
            item,
            count_of(add_tally(base, items), item) + 1,
        ),
{
    let before = add_tally(base, items);
    let after = add_tally(base, items.push(item));
    assert forall|k: Seq<char>| after.contains_key(k) <==> before.insert(item, 0).contains_key(
        k,
    ) by {
        lemma_occurrences_bounds(items, k);
        lemma_occurrences_bounds(items.push(item), k);
        lemma_occurrences_push(items, item, k);
    }
    assert forall|k: Seq<char>| after.contains_key(k) implies #[trigger] after[k] == before.insert(
        item,
        count_of(before, item) + 1,
    )[k] by {
        lemma_occurrences_push(items, item, k);
        lemma_occurrences_bounds(items, k);
    }
    assert(after =~= before.insert(item, count_of(before, item) + 1));
}

/// Counting two sequences one after the other is counting them in a row.
pub proof fn lemma_add_tally_concat(
    base: Map<Seq<char>, nat>,
    first: Seq<Seq<char>>,
    second: Seq<Seq<char>>,
)
    ensures
        add_tally(add_tally(base, first), second) == add_tally(base, first + second),
{
    let stepwise = add_tally(add_tally(base, first), second);
    let whole = add_tally(base, first + second);
    assert forall|k: Seq<char>| stepwise.contains_key(k) <==> whole.contains_key(k) by {
        lemma_occurrences_bounds(first, k);
        lemma_occurrences_bounds(second, k);
        lemma_occurrences_bounds(first + second, k);
        lemma_occurrences_concat(first, second, k);
    }
    assert forall|k: Seq<char>| stepwise.contains_key(k) implies #[trigger] stepwise[k]
        == whole[k] by {
        lemma_occurrences_concat(first, second, k);
        lemma_occurrences_bounds(first, k);
    }
    assert(stepwise =~= whole);
}

/// A count that does not fit after a prefix does not fit after the whole.
pub proof fn lemma_add_tally_prefix_overflows(
    base: Map<Seq<char>, nat>,
    items: Seq<Seq<char>>,
    n: int,
)
    requires
        0 <= n <= items.len(),
        !fits(add_tally(base, items.take(n))),
    ensures
        !fits(add_tally(base, items)),
{
    let part = add_tally(base, items.take(n));
    let k = choose|k: Seq<char>| part.contains_key(k) && !(#[trigger] part[k] <= usize::MAX);
    lemma_occurrences_prefix(items, n, k);
    lemma_occurrences_bounds(items.take(n), k);
    lemma_occurrences_bounds(items, k);
    assert(add_tally(base, items).contains_key(k));
    assert(add_tally(base, items)[k] > usize::MAX);
}

impl OrderedMap<usize> {
    /// The count of a key: zero where the key has no entry.
    pub fn count(&self, key: &str) -> (n: usize)
        ensures
            n == count_of(counts_of(self@), key@),
    {
        match self.get(key) {
            Some(n) => *n,
            None => 0,
        }
    }

    /// Adds one to the count of a key, which starts at zero. Where the count
    /// would no longer fit, nothing is changed and the answer is `false`.
    pub fn bump(&mut self, key: &str) -> (done: bool)
        ensures
            final(self).well_formed(),
            done == (count_of(counts_of(old(self)@), key@) < usize::MAX),
            done ==> counts_of(final(self)@) == counts_of(old(self)@).insert(
                key@,
                count_of(counts_of(old(self)@), key@) + 1,
            ),
            !done ==> final(self)@ == old(self)@,
            final(self).spec_keys() == if old(self)@.contains_key(key@) {
                old(self).spec_keys()
            } else {
                old(self).spec_keys().push(key@)
            },
    {
        match self.position(key) {
            Some(i) => {
                let n: usize = *self.value_at(i);
                if n == usize::MAX {
                    false
                } else {
                    let _ = self.replace_at(i, n + 1);
                    assert(counts_of(self@) =~= counts_of(old(self)@).insert(
                        key@,
                        (n + 1) as nat,
                    ));
                    true
                }
            },
            None => {
                self.insert(key.to_owned(), 1);
                assert(counts_of(self@) =~= counts_of(old(self)@).insert(key@, 1nat));
                true
            },
        }
    }
}

/// Counts each string of `items` in `counts`. The answer is `false` where a
/// count does not fit; the counts are then of no use.
pub fn count_strings(counts: &mut OrderedMap<usize>, items: &Vec<String>) -> (done: bool)
    ensures
        done == fits(add_tally(counts_of(old(counts)@), items.deep_view())),
        done ==> counts_of(final(counts)@) == add_tally(
            counts_of(old(counts)@),
            items.deep_view(),
        ),
{
    let ghost base = counts_of(counts@);
    let ghost all = items.deep_view();
    proof {
        lemma_add_tally_empty(base);
    }
    let mut i: usize = 0;
    while i < items.len()
        invariant
            i <= items.len(),
            all == items.deep_view(),
            base == counts_of(old(counts)@),
            counts_of(counts@) == add_tally(base, all.take(i as int)),
        decreases items.len() - i,
    {
        let ghost before = all.take(i as int);
        proof {
            assert(all.take(i + 1) =~= before.push(items[i as int]@));
            lemma_add_tally_push(base, before, items[i as int]@);
        }
        if !counts.bump(items[i].as_str()) {
            proof {
                let full = add_tally(base, all.take(i + 1));
                assert(full.contains_key(items[i as int]@));
                assert(full[items[i as int]@] > usize::MAX);
                lemma_add_tally_prefix_overflows(base, all, i + 1);
            }
            return false;
        }
        i += 1;
    }
    proof {
        assert(all.take(i as int) =~= all);
        assert(fits(counts_of(counts@)));
    }
    true
}

/// Counts the identifier of each card of `cards` in `counts`. The answer is
/// `false` where a count does not fit; the counts are then of no use.
pub fn count_card_ids(counts: &mut OrderedMap<usize>, cards: &Vec<DeckCard>) -> (done: bool)
    ensures
        done == fits(add_tally(counts_of(old(counts)@), card_ids(cards.deep_view()))),
        done ==> counts_of(final(counts)@) == add_tally(
            counts_of(old(counts)@),
            card_ids(cards.deep_view()),
        ),
{
    let ghost base = counts_of(counts@);
    let ghost all = card_ids(cards.deep_view());
    proof {
        lemma_add_tally_empty(base);
    }
    let mut i: usize = 0;
    while i < cards.len()
        invariant
            i <= cards.len(),
            all == card_ids(cards.deep_view()),
            base == counts_of(old(counts)@),
            counts_of(counts@) == add_tally(base, all.take(i as int)),
        decreases cards.len() - i,
    {
        let ghost before = all.take(i as int);
        proof {
            assert(all.take(i + 1) =~= before.push(cards[i as int].id@));
            lemma_add_tally_push(base, before, cards[i as int].id@);
        }
        if !counts.bump(cards[i].id.as_str()) {
            proof {
                let full = add_tally(base, all.take(i + 1));
                assert(full.contains_key(cards[i as int].id@));
                assert(full[cards[i as int].id@] > usize::MAX);
                lemma_add_tally_prefix_overflows(base, all, i + 1);
            }
            return false;
        }
        i += 1;
    }
    proof {
        assert(all.take(i as int) =~= all);
        assert(fits(counts_of(counts@)));
    }
    true
}

} // verus!

//! The deck editor: the deck being edited and, for each card of the
//! collection, how many copies are left to add.
use vstd::prelude::*;
use crate::ids::ArchetypeId;
use vstd::multiset::Multiset;

verus! {

broadcast use vstd::multiset::group_multiset_axioms;

/// What the player does in the deck editor.
#[derive(Debug, Clone, Copy, PartialEq, Eq, Structural)]
pub enum DeckEvent {
    RemoveFromDeck(ArchetypeId),
    AddToDeck(ArchetypeId),
}

/// How many copies of `id` the deck holds.
pub open spec fn copies(deck: Seq<ArchetypeId>, id: ArchetypeId) -> nat {
    deck.to_multiset().count(id)
}

/// The first position of `id` in the deck.
pub open spec fn deck_position(deck: Seq<ArchetypeId>, id: ArchetypeId) -> Option<int>
    decreases deck.len(),
{
    if deck.len() == 0 {
        None
    } else if deck[0] == id {
        Some(0)
    } else {
        match deck_position(deck.drop_first(), id) {
            Some(i) => Some(i + 1),
            None => None,
        }
    }
}

/// The first entry of `id` in the stock.
pub open spec fn stock_position(stock: Seq<(ArchetypeId, u32)>, id: ArchetypeId) -> Option<int>
    decreases stock.len(),
{
    if stock.len() == 0 {
        None
    } else if stock[0].0 == id {
        Some(0)
    } else {
        match stock_position(stock.drop_first(), id) {
            Some(i) => Some(i + 1),
            None => None,
        }
    }
}

/// Each card occurs once in the stock.
pub open spec fn distinct_cards(stock: Seq<(ArchetypeId, u32)>) -> bool {
    forall|i: int, j: int| 0 <= i < j < stock.len() ==> stock[i].0 != stock[j].0
}

/// The stock left of each card of `collection` once `deck` is built from it.
pub open spec fn stock_after(collection: Seq<(ArchetypeId, u32)>, deck: Seq<ArchetypeId>) -> Seq<
    (ArchetypeId, u32),
> {
    Seq::new(
        collection.len(),
        |i: int| (collection[i].0, (collection[i].1 - copies(deck, collection[i].0)) as u32),
    )
}

/// The editor after one event; none where the event stops the handling of
/// the events that follow (adding a card none of which is left).
pub open spec fn after_event(deck: Seq<ArchetypeId>, stock: Seq<(ArchetypeId, u32)>, e: DeckEvent) -> Option<
    (Seq<ArchetypeId>, Seq<(ArchetypeId, u32)>),
> {
    match e {
        DeckEvent::RemoveFromDeck(id) => match deck_position(deck, id) {
            None => Some((deck, stock)),
            Some(i) => Some(
                (
                    deck.remove(i),
                    match stock_position(stock, id) {
                        Some(k) => stock.update(k, (id, (stock[k].1 + 1) as u32)),
                        None => stock,
                    },
                ),
            ),
        },
        DeckEvent::AddToDeck(id) => match stock_position(stock, id) {
            Some(k) => if stock[k].1 == 0 {
                None
            } else {
                Some((deck.push(id), stock.update(k, (id, (stock[k].1 - 1) as u32))))
            },
            None => Some((deck.push(id), stock)),
        },
    }
}

/// The editor after the events, handled in order until one stops them,
/// and how many were handled.
pub open spec fn after_events(
    deck: Seq<ArchetypeId>,
    stock: Seq<(ArchetypeId, u32)>,
    events: Seq<DeckEvent>,
) -> (Seq<ArchetypeId>, Seq<(ArchetypeId, u32)>, nat)
    decreases events.len(),
{
    if events.len() == 0 {
        (deck, stock, 0)
    } else {
        match after_event(deck, stock, events[0]) {
            None => (deck, stock, 0),
            Some((d, s)) => {
                let (d2, s2, n) = after_events(d, s, events.drop_first());
                (d2, s2, n + 1)
            },
        }
    }
}

/// Each card's copies in the deck and in the stock together fit a `u32`.
pub open spec fn totals_fit(deck: Seq<ArchetypeId>, stock: Seq<(ArchetypeId, u32)>) -> bool {
    forall|k: int| 0 <= k < stock.len() ==> stock[k].1 + copies(deck, #[trigger] stock[k].0) <= u32::MAX
}

/// The deck editor's state.
#[derive(Debug, Clone)]
pub struct DeckEditor {
    deck: Vec<ArchetypeId>,
    stock: Vec<(ArchetypeId, u32)>,
}

proof fn lemma_deck_position(deck: Seq<ArchetypeId>, id: ArchetypeId)
    ensures
        deck_position(deck, id) matches Some(i) ==> 0 <= i < deck.len() && deck[i] == id,
        deck_position(deck, id) is None ==> forall|j: int| 0 <= j < deck.len() ==> deck[j] != id,
        deck_position(deck, id) is None ==> copies(deck, id) == 0,
        deck_position(deck, id) matches Some(i) ==> forall|j: int| 0 <= j < i ==> deck[j] != id,
    decreases deck.len(),
{
    if deck.len() > 0 {
        lemma_deck_position(deck.drop_first(), id);
        assert forall|j: int| 0 < j < deck.len() implies deck[j] == deck.drop_first()[j - 1] by {}
    }
    vstd::seq_lib::to_multiset_contains(deck, id);
    if deck_position(deck, id) is None && deck.contains(id) {
        let j = choose|j: int| 0 <= j < deck.len() && deck[j] == id;
        assert(deck[j] != id);
    }
}

proof fn lemma_stock_position(stock: Seq<(ArchetypeId, u32)>, id: ArchetypeId)
    ensures
        stock_position(stock, id) matches Some(i) ==> 0 <= i < stock.len() && stock[i].0 == id,
        stock_position(stock, id) is None ==> forall|j: int| 0 <= j < stock.len() ==> stock[j].0 != id,
        stock_position(stock, id) matches Some(i) ==> forall|j: int| 0 <= j < i ==> stock[j].0 != id,
    decreases stock.len(),
{
    if stock.len() > 0 {
        lemma_stock_position(stock.drop_first(), id);
        assert forall|j: int| 0 < j < stock.len() implies stock[j] == stock.drop_first()[j - 1] by {}
    }
}

/// An event keeps, for each card of the stock, the copies in the deck and
/// the copies left together; the stock keeps its cards in their places.
pub proof fn lemma_event_conserves(deck: Seq<ArchetypeId>, stock: Seq<(ArchetypeId, u32)>, e: DeckEvent)
    requires
        distinct_cards(stock),
        totals_fit(deck, stock),
    ensures
        after_event(deck, stock, e) matches Some((d, s)) ==> {
            &&& s.len() == stock.len()
            &&& distinct_cards(s)
            &&& totals_fit(d, s)
            &&& forall|k: int|
                0 <= k < stock.len() ==> (#[trigger] s[k]).0 == stock[k].0 && s[k].1 + copies(d, s[k].0)
                    == stock[k].1 + copies(deck, stock[k].0)
        },
{
    broadcast use vstd::seq_lib::to_multiset_build, vstd::seq_lib::to_multiset_remove;

    match e {
        DeckEvent::RemoveFromDeck(id) => {
            lemma_deck_position(deck, id);
            lemma_stock_position(stock, id);
            if let Some(i) = deck_position(deck, id) {
                let d = deck.remove(i);
                assert(d.to_multiset() == deck.to_multiset().remove(id));
                vstd::seq_lib::to_multiset_contains(deck, id);
                assert(deck.contains(id)) by {
                    assert(deck[i] == id);
                }
            }
        },
        DeckEvent::AddToDeck(id) => {
            lemma_stock_position(stock, id);
            assert(deck.push(id).to_multiset() == deck.to_multiset().insert(id));
        },
    }
}

impl DeckEditor {
    /// The deck being edited.
    pub closed spec fn deck_cards(&self) -> Seq<ArchetypeId> {
        self.deck@
    }

    /// The collection's cards with the copies left of each.
    pub closed spec fn stock_cards(&self) -> Seq<(ArchetypeId, u32)> {
        self.stock@
    }

    /// The editor's invariant: each card occurs once in the stock, and its
    /// copies in the deck and left together fit a `u32`.
    pub open spec fn wf(&self) -> bool {
        &&& distinct_cards(self.stock_cards())
        &&& totals_fit(self.deck_cards(), self.stock_cards())
    }

    /// Opens the editor on `deck`, built from `collection` (each card once,
    /// with the copies owned, in the order to show them): the stock is what
    /// is left of each card.
    pub fn new(collection: &Vec<(ArchetypeId, u32)>, deck: &Vec<ArchetypeId>) -> (res: DeckEditor)
        requires
            distinct_cards(collection@),
            forall|k: int|
                0 <= k < collection@.len() ==> copies(deck@, #[trigger] collection@[k].0)
                    <= collection@[k].1,
        ensures
            res.wf(),
            res.deck_cards() == deck@,
            res.stock_cards() == stock_after(collection@, deck@),
    {
        let mut d: Vec<ArchetypeId> = Vec::new();
        let mut i: usize = 0;
        while i < deck.len()
            invariant
                i <= deck.len(),
                d@ == deck@.take(i as int),
            decreases deck.len() - i,
        {
            d.push(deck[i]);
            i += 1;
            assert(d@ =~= deck@.take(i as int));
        }
        assert(deck@.take(i as int) =~= deck@);
        let mut stock: Vec<(ArchetypeId, u32)> = Vec::new();
        let mut k: usize = 0;
        while k < collection.len()
            invariant
                k <= collection.len(),
                d@ == deck@,
                forall|j: int|
                    0 <= j < collection@.len() ==> copies(deck@, #[trigger] collection@[j].0)
                        <= collection@[j].1,
                stock@ == stock_after(collection@, deck@).take(k as int),
            decreases collection.len() - k,
        {
            let (id, owned) = collection[k];
            let used = count_copies(&d, id);
            assert(copies(deck@, collection@[k as int].0) <= collection@[k as int].1);
            stock.push((id, owned - used));
            k += 1;
            assert(stock@ =~= stock_after(collection@, deck@).take(k as int));
        }
        assert(stock_after(collection@, deck@).take(k as int) =~= stock_after(collection@, deck@));
        let res = DeckEditor { deck: d, stock };
        assert(distinct_cards(res.stock@)) by {
            assert forall|a: int, b: int| 0 <= a < b < res.stock@.len() implies res.stock@[a].0
                != res.stock@[b].0 by {
                assert(res.stock@[a].0 == collection@[a].0);
                assert(res.stock@[b].0 == collection@[b].0);
            }
        }
        assert(totals_fit(res.deck@, res.stock@)) by {
            assert forall|j: int| 0 <= j < res.stock@.len() implies res.stock@[j].1 + copies(
                res.deck@,
                #[trigger] res.stock@[j].0,
            ) <= u32::MAX by {
                assert(res.stock@[j].0 == collection@[j].0);
                assert(copies(deck@, collection@[j].0) <= collection@[j].1);
            }
        }
        res
    }

    /// The deck's cards.
    pub fn deck(&self) -> (res: &Vec<ArchetypeId>)
        ensures
            res@ == self.deck_cards(),
    {
        &self.deck
    }

    /// The copies left of `id`, if the collection shows it.
    pub fn stock_of(&self, id: ArchetypeId) -> (res: Option<u32>)
        ensures
            match stock_position(self.stock_cards(), id) {
                Some(k) => res == Some(self.stock_cards()[k].1),
                None => res is None,
            },
    {
        match find_stock(&self.stock, id) {
            Some(k) => {
                proof {
                    lemma_stock_position(self.stock@, id);
                }
                Some(self.stock[k].1)
            },
            None => None,
        }
    }

    /// Handles the events in order: a removal takes the first copy of the
    /// card out of the deck and gives it back to the stock; an addition
    /// takes a copy from the stock, if any is left, and puts it at the end of
    /// the deck. Adding a card none of which is left ends the handling: the
    /// events after it are dropped. Returns how many events were handled.
    pub fn handle_events(&mut self, events: &Vec<DeckEvent>) -> (handled: usize)
        requires
            old(self).wf(),
        ensures
            final(self).wf(),
            (final(self).deck_cards(), final(self).stock_cards(), handled as nat) == after_events(
                old(self).deck_cards(),
                old(self).stock_cards(),
                events@,
            ),
    {
        let mut i: usize = 0;
        assert(events@.skip(0) =~= events@);
        while i < events.len()
            invariant
                i <= events.len(),
                self.wf(),
                after_events(old(self).deck_cards(), old(self).stock_cards(), events@) == ({
                    let (d, s, n) = after_events(self.deck_cards(), self.stock_cards(), events@.skip(i as int));
                    (d, s, (n + i) as nat)
                }),
            decreases events.len() - i,
        {
            proof {
                let rest = events@.skip(i as int);
                assert(rest[0] == events@[i as int]);
                assert(rest.drop_first() =~= events@.skip(i + 1));
                lemma_event_conserves(self.deck@, self.stock@, events@[i as int]);
            }
            if !self.apply(events[i]) {
                return i;
            }
            i += 1;
        }
        assert(events@.skip(i as int) =~= Seq::<DeckEvent>::empty());
        i
    }

    /// Handles one event (see [`after_event`]); false where it stops the
    /// handling, and then nothing changes.
    fn apply(&mut self, e: DeckEvent) -> (go_on: bool)
        requires
            old(self).wf(),
        ensures
            match after_event(old(self).deck_cards(), old(self).stock_cards(), e) {
                Some((d, s)) => go_on && final(self).deck_cards() == d && final(self).stock_cards() == s,
                None => !go_on && final(self).deck_cards() == old(self).deck_cards()
                    && final(self).stock_cards() == old(self).stock_cards(),
            },
    {
        proof {
            lemma_event_conserves(self.deck@, self.stock@, e);
        }
        match e {
            DeckEvent::RemoveFromDeck(id) => {
                match find_card(&self.deck, id) {
                    None => {},
                    Some(i) => {
                        proof {
                            lemma_deck_position(self.deck@, id);
                            vstd::seq_lib::to_multiset_contains(self.deck@, id);
                            assert(self.deck@.contains(id)) by {
                                assert(self.deck@[i as int] == id);
                            }
                        }
                        match find_stock(&self.stock, id) {
                            Some(k) => {
                                proof {
                                    lemma_stock_position(self.stock@, id);
                                    assert(self.stock@[k as int].1 + copies(self.deck@, self.stock@[k as int].0)
                                        <= u32::MAX);
                                }
                                let c = self.stock[k].1;
                                self.stock.set(k, (id, c + 1));
                            },
                            None => {},
                        }
                        self.deck.remove(i);
                    },
                }
                true
            },
            DeckEvent::AddToDeck(id) => {
                match find_stock(&self.stock, id) {
                    Some(k) => {
                        proof {
                            lemma_stock_position(self.stock@, id);
                        }
                        let c = self.stock[k].1;
                        if c == 0 {
                            return false;
                        }
                        self.stock.set(k, (id, c - 1));
                    },
                    None => {},
                }
                self.deck.push(id);
                true
            },
        }
    }
}

fn count_copies(deck: &Vec<ArchetypeId>, id: ArchetypeId) -> (res: u32)
    requires
        copies(deck@, id) <= u32::MAX,
    ensures
        res == copies(deck@, id),
{
    let mut n: u32 = 0;
    let mut i: usize = 0;
    proof {
        vstd::seq_lib::to_multiset_contains(deck@.take(0), id);
        lemma_copies_prefix(deck@, id, 0);
    }
    while i < deck.len()
        invariant
            i <= deck.len(),
            copies(deck@, id) <= u32::MAX,
            n == copies(deck@.take(i as int), id),
            copies(deck@.take(i as int), id) <= copies(deck@, id),
        decreases deck.len() - i,
    {
        proof {
            let t = deck@.take(i + 1);
            assert(t =~= deck@.take(i as int).push(deck@[i as int]));
            vstd::seq_lib::to_multiset_build(deck@.take(i as int), deck@[i as int]);
            lemma_copies_prefix(deck@, id, i + 1);
        }
        if deck[i] == id {
            n = n + 1;
        }
        i += 1;
    }
    assert(deck@.take(i as int) =~= deck@);
    n
}

proof fn lemma_copies_prefix(deck: Seq<ArchetypeId>, id: ArchetypeId, i: int)
    requires
        0 <= i <= deck.len(),
    ensures
        copies(deck.take(i), id) <= copies(deck, id),
    decreases deck.len() - i,
{
    if i < deck.len() {
        lemma_copies_prefix(deck, id, i + 1);
        let t = deck.take(i + 1);
        assert(t =~= deck.take(i).push(deck[i]));
        vstd::seq_lib::to_multiset_build(deck.take(i), deck[i]);
    } else {
        assert(deck.take(i) =~= deck);
    }
}

fn find_card(deck: &Vec<ArchetypeId>, id: ArchetypeId) -> (res: Option<usize>)
    ensures
        match res {
            Some(i) => deck_position(deck@, id) == Some(i as int),
            None => deck_position(deck@, id) is None,
        },
{
    let mut i: usize = 0;
    assert(deck@.skip(0) =~= deck@);
    while i < deck.len()
        invariant
            i <= deck.len(),
            deck_position(deck@, id) == match deck_position(deck@.skip(i as int), id) {
                Some(j) => Some(j + i),
                None => None::<int>,
            },
        decreases deck.len() - i,
    {
        proof {
            let rest = deck@.skip(i as int);
            assert(rest[0] == deck@[i as int]);
            assert(rest.drop_first() =~= deck@.skip(i + 1));
        }
        if deck[i] == id {
            return Some(i);
        }
        i += 1;
    }
    assert(deck@.skip(i as int) =~= Seq::<ArchetypeId>::empty());
    None
}

fn find_stock(stock: &Vec<(ArchetypeId, u32)>, id: ArchetypeId) -> (res: Option<usize>)
    ensures
        match res {
            Some(i) => stock_position(stock@, id) == Some(i as int),
            None => stock_position(stock@, id) is None,
        },
{
    let mut i: usize = 0;
    assert(stock@.skip(0) =~= stock@);
    while i < stock.len()
        invariant
            i <= stock.len(),
            stock_position(stock@, id) == match stock_position(stock@.skip(i as int), id) {
                Some(j) => Some(j + i),
                None => None::<int>,
            },
        decreases stock.len() - i,
    {
        proof {
            let rest = stock@.skip(i as int);
            assert(rest[0] == stock@[i as int]);
            assert(rest.drop_first() =~= stock@.skip(i + 1));
        }
        if stock[i].0 == id {
            return Some(i);
        }
        i += 1;
    }
    assert(stock@.skip(i as int) =~= Seq::<(ArchetypeId, u32)>::empty());
    None
}

/// Whether `s` is in non-decreasing order.
pub open spec fn sorted_keys(s: Seq<u64>) -> bool {
    forall|i: int, j: int| 0 <= i <= j < s.len() ==> s[i] <= s[j]
}

/// Whether `k` is a place in `s` where `key` can go with the order kept:
/// nothing before it is greater and nothing from it on is smaller.
pub open spec fn insertion_point(s: Seq<u64>, key: u64, k: int) -> bool {
    &&& 0 <= k <= s.len()
    &&& forall|i: int| 0 <= i < k ==> s[i] <= key
    &&& forall|i: int| k <= i < s.len() ==> key <= s[i]
}

/// Where a card added to the deck list is shown: a binary search for its
/// ordering key among the keys of the cards shown, which are in order.
/// Where cards with the same key are shown already, the search may stop at
/// any of them, as a binary search does.
pub fn deck_insert_index(shown: &Vec<u64>, key: u64) -> (res: usize)
    requires
        sorted_keys(shown@),
    ensures
        insertion_point(shown@, key, res as int),
{
    let mut lo: usize = 0;
    let mut hi: usize = shown.len();
    while lo < hi
        invariant
            0 <= lo <= hi <= shown@.len(),
            sorted_keys(shown@),
            forall|i: int| 0 <= i < lo ==> shown@[i] < key,
            forall|i: int| hi <= i < shown@.len() ==> key < shown@[i],
        decreases hi - lo,
    {
        let mid = lo + (hi - lo) / 2;
        if shown[mid] < key {
            lo = mid + 1;
        } else if key < shown[mid] {
            hi = mid;
        } else {
            return mid;
        }
    }
    lo
}

} // verus!

use kodecks_client::deck::{deck_insert_index, DeckEditor, DeckEvent};
use kodecks_client::ids::ArchetypeId;

fn a(n: u32) -> ArchetypeId {
    ArchetypeId(n)
}

fn editor() -> DeckEditor {
    // Four copies of card 1 and two of card 2 owned; the deck holds
    // three of card 1.
    DeckEditor::new(&vec![(a(1), 4), (a(2), 2)], &vec![a(1), a(1), a(1)])
}

#[test]
fn test_new_editor_counts_what_is_left() {
    let e = editor();
    assert_eq!(e.stock_of(a(1)), Some(1));
    assert_eq!(e.stock_of(a(2)), Some(2));
    assert_eq!(e.stock_of(a(3)), None);
    assert_eq!(e.deck(), &vec![a(1), a(1), a(1)]);
}

#[test]
fn test_add_and_remove() {
    let mut e = editor();
    let n = e.handle_events(&vec![DeckEvent::AddToDeck(a(2)), DeckEvent::RemoveFromDeck(a(1))]);
    assert_eq!(n, 2);
    assert_eq!(e.deck(), &vec![a(1), a(1), a(2)]);
    assert_eq!(e.stock_of(a(1)), Some(2));
    assert_eq!(e.stock_of(a(2)), Some(1));
}

#[test]
fn test_adding_a_card_with_none_left_stops_the_events() {
    let mut e = editor();
    let n = e.handle_events(&vec![
        DeckEvent::AddToDeck(a(1)),
        DeckEvent::AddToDeck(a(1)),
        DeckEvent::RemoveFromDeck(a(1)),
    ]);
    assert_eq!(n, 1);
    assert_eq!(e.deck(), &vec![a(1), a(1), a(1), a(1)]);
    assert_eq!(e.stock_of(a(1)), Some(0));
}

#[test]
fn test_removing_a_card_not_in_the_deck_changes_nothing() {
    let mut e = editor();
    let n = e.handle_events(&vec![DeckEvent::RemoveFromDeck(a(2))]);
    assert_eq!(n, 1);
    assert_eq!(e.deck(), &vec![a(1), a(1), a(1)]);
    assert_eq!(e.stock_of(a(2)), Some(2));
}

#[test]
fn test_adding_a_card_outside_the_collection() {
    let mut e = editor();
    e.handle_events(&vec![DeckEvent::AddToDeck(a(9))]);
    assert_eq!(e.deck(), &vec![a(1), a(1), a(1), a(9)]);
    assert_eq!(e.stock_of(a(9)), None);
}

#[test]
fn test_copies_are_conserved() {
    let mut e = editor();
    let events = vec![
        DeckEvent::AddToDeck(a(2)),
        DeckEvent::AddToDeck(a(2)),
        DeckEvent::RemoveFromDeck(a(1)),
        DeckEvent::RemoveFromDeck(a(2)),
        DeckEvent::AddToDeck(a(1)),
    ];
    e.handle_events(&events);
    for (card, owned) in [(a(1), 4u32), (a(2), 2)] {
        let in_deck = e.deck().iter().filter(|c| **c == card).count() as u32;
        assert_eq!(e.stock_of(card).unwrap() + in_deck, owned);
    }
}

#[test]
fn deck_insert_index_keeps_order() {
    assert_eq!(deck_insert_index(&vec![], 5), 0);
    assert_eq!(deck_insert_index(&vec![1, 3, 7, 9], 5), 2);
    assert_eq!(deck_insert_index(&vec![1, 3, 7, 9], 0), 0);
    assert_eq!(deck_insert_index(&vec![1, 3, 7, 9], 10), 4);
    let i = deck_insert_index(&vec![1, 3, 3, 3, 9], 3);
    assert!((1..=4).contains(&i));
}

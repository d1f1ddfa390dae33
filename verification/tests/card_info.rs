use kodecks_client::card_info::{related_abilities, text_sections, Section, StyledText, TextKind};

fn flat(v: &[StyledText]) -> Vec<(String, TextKind)> {
    v.iter().map(|t| (t.text.clone(), t.kind)).collect()
}

#[test]
fn card_text_with_abilities() {
    let names = vec!["Toxic".to_string(), "Stealth".to_string()];
    let sections = vec![
        Section::Text("Deal ".to_string()),
        Section::Number(12),
        Section::Text(" damage to ".to_string()),
        Section::Card("Pyrosnail".to_string()),
        Section::Text(". ".to_string()),
        Section::Keyword("Toxic".to_string()),
    ];
    let res = text_sections(&names, &sections);
    assert_eq!(
        flat(&res),
        vec![
            ("Toxic".to_string(), TextKind::AbilityName),
            ("  ".to_string(), TextKind::Plain),
            ("Stealth".to_string(), TextKind::AbilityName),
            ("  ".to_string(), TextKind::Plain),
            ("\n\n".to_string(), TextKind::Gap),
            ("Deal ".to_string(), TextKind::Plain),
            ("12".to_string(), TextKind::Number),
            (" damage to ".to_string(), TextKind::Plain),
            ("Pyrosnail".to_string(), TextKind::CardName),
            (". ".to_string(), TextKind::Plain),
            ("Toxic".to_string(), TextKind::Keyword),
        ]
    );
}

#[test]
fn card_text_without_abilities_has_no_gap() {
    let res = text_sections(&vec![], &vec![Section::Text("Draw a card.".to_string())]);
    assert_eq!(flat(&res), vec![("Draw a card.".to_string(), TextKind::Plain)]);
}

#[test]
fn card_text_numbers_in_decimal() {
    let res = text_sections(&vec![], &vec![Section::Number(0), Section::Number(4096)]);
    assert_eq!(
        flat(&res),
        vec![("0".to_string(), TextKind::Number), ("4096".to_string(), TextKind::Number)]
    );
}

#[test]
fn related_abilities_sorted_once() {
    assert_eq!(related_abilities(&vec![3, 1, 3], &vec![2, 1]), vec![1, 2, 3]);
    assert_eq!(related_abilities(&vec![], &vec![]), Vec::<u32>::new());
    assert_eq!(related_abilities(&vec![], &vec![5, 0, 5]), vec![0, 5]);
}

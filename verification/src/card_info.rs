//! The card-information panel: the styled pieces of a card's text and the
//! list of keyword abilities explained beside it.
use vstd::prelude::*;
use crate::painter::decimal;
use vstd::seq_lib::lemma_seq_contains_after_push;

verus! {

/// How a piece of card text is styled.
#[derive(Debug, Clone, Copy, PartialEq, Eq, Structural)]
pub enum TextKind {
    /// The name of one of the card's abilities (gold).
    AbilityName,
    /// Ordinary card text.
    Plain,
    /// The small gap between the abilities and the rules text.
    Gap,
    /// The name of another card (light blue).
    CardName,
    /// A keyword inside the rules text (gold).
    Keyword,
    /// A number inside the rules text (light pink).
    Number,
}

/// A piece of a card's rules text as the text parser splits it.
#[derive(Debug, Clone)]
pub enum Section {
    Text(String),
    Card(String),
    Keyword(String),
    Number(u32),
}

/// A piece of text with its style.
#[derive(Debug, Clone)]
pub struct StyledText {
    pub text: String,
    pub kind: TextKind,
}

impl StyledText {
    pub open spec fn spec(&self) -> (Seq<char>, TextKind) {
        (self.text@, self.kind)
    }
}

/// The styled pieces, as plain values.
pub open spec fn pieces(s: Seq<StyledText>) -> Seq<(Seq<char>, TextKind)> {
    s.map_values(|t: StyledText| t.spec())
}

/// The names, as plain values.
pub open spec fn texts(s: Seq<String>) -> Seq<Seq<char>> {
    s.map_values(|t: String| t@)
}

/// Each ability's name followed by two spaces.
pub open spec fn ability_pieces(names: Seq<Seq<char>>) -> Seq<(Seq<char>, TextKind)>
    decreases names.len(),
{
    if names.len() == 0 {
        Seq::empty()
    } else {
        ability_pieces(names.drop_last()) + seq![
            (names.last(), TextKind::AbilityName),
            ("  "@, TextKind::Plain),
        ]
    }
}

/// How one piece of rules text is shown.
pub open spec fn section_piece(s: Section) -> (Seq<char>, TextKind) {
    match s {
        Section::Text(t) => (t@, TextKind::Plain),
        Section::Card(t) => (t@, TextKind::CardName),
        Section::Keyword(t) => (t@, TextKind::Keyword),
        Section::Number(n) => (decimal(n as nat), TextKind::Number),
    }
}

/// The card text: the ability names, a gap when there are any, then the
/// rules text piece by piece.
pub open spec fn card_text(names: Seq<Seq<char>>, sections: Seq<Section>) -> Seq<(Seq<char>, TextKind)> {
    ability_pieces(names) + (if names.len() > 0 {
        seq![("\n\n"@, TextKind::Gap)]
    } else {
        Seq::empty()
    }) + sections.map_values(|s: Section| section_piece(s))
}

/// `n` in decimal, as `u32`'s `Display` writes it.
#[verifier::external_body]
fn number_text(n: u32) -> (res: String)
    ensures
        res@ == decimal(n as nat),
{
    n.to_string()
}

fn piece(text: String, kind: TextKind) -> (res: StyledText)
    ensures
        res.spec() == (text@, kind),
{
    StyledText { text, kind }
}

/// The styled text of a card whose abilities are called `ability_names`
/// (already translated) and whose rules text parses into `sections`.
pub fn text_sections(ability_names: &Vec<String>, sections: &Vec<Section>) -> (res: Vec<StyledText>)
    ensures
        pieces(res@) == card_text(texts(ability_names@), sections@),
{
    let ghost names = texts(ability_names@);
    let mut res: Vec<StyledText> = Vec::new();
    let mut i: usize = 0;
    while i < ability_names.len()
        invariant
            i <= ability_names@.len(),
            names == texts(ability_names@),
            pieces(res@) == ability_pieces(names.take(i as int)),
        decreases ability_names.len() - i,
    {
        let name = ability_names[i].clone();
        res.push(piece(name, TextKind::AbilityName));
        res.push(piece("  ".to_owned(), TextKind::Plain));
        proof {
            let t = names.take(i + 1);
            assert(t.drop_last() =~= names.take(i as int));
            assert(t.last() == ability_names@[i as int]@);
        }
        i += 1;
        assert(pieces(res@) =~= ability_pieces(names.take(i as int)));
    }
    assert(names.take(i as int) =~= names);
    let ghost head = pieces(res@);
    if ability_names.len() > 0 {
        res.push(piece("\n\n".to_owned(), TextKind::Gap));
    }
    let ghost top = pieces(res@);
    assert(top =~= head + (if names.len() > 0 {
        seq![("\n\n"@, TextKind::Gap)]
    } else {
        Seq::empty()
    }));
    let mut k: usize = 0;
    while k < sections.len()
        invariant
            k <= sections@.len(),
            pieces(res@) == top + sections@.take(k as int).map_values(|s: Section| section_piece(s)),
        decreases sections.len() - k,
    {
        let p = match &sections[k] {
            Section::Text(t) => piece(t.clone(), TextKind::Plain),
            Section::Card(t) => piece(t.clone(), TextKind::CardName),
            Section::Keyword(t) => piece(t.clone(), TextKind::Keyword),
            Section::Number(n) => piece(number_text(*n), TextKind::Number),
        };
        assert(p.spec() == section_piece(sections@[k as int]));
        let ghost old_res = res@;
        res.push(p);
        k += 1;
        proof {
            let done = sections@.take(k - 1);
            assert(sections@.take(k as int) =~= done.push(sections@[k - 1]));
            assert(pieces(res@) =~= pieces(old_res).push(p.spec()));
            assert(sections@.take(k as int).map_values(|s: Section| section_piece(s)) =~= done.map_values(
                |s: Section| section_piece(s),
            ).push(section_piece(sections@[k - 1])));
        }
        assert(pieces(res@) =~= top + sections@.take(k as int).map_values(|s: Section| section_piece(s)));
    }
    assert(sections@.take(k as int) =~= sections@);
    res
}

/// Whether `s` is in strictly increasing order (sorted, nothing twice).
pub open spec fn strictly_sorted(s: Seq<u32>) -> bool {
    forall|i: int, j: int| 0 <= i < j < s.len() ==> s[i] < s[j]
}

/// `x` put into the strictly sorted `s` in its place, unless it is there.
fn insert_sorted(s: &mut Vec<u32>, x: u32)
    requires
        strictly_sorted(old(s)@),
    ensures
        strictly_sorted(final(s)@),
        forall|y: u32| final(s)@.contains(y) <==> (old(s)@.contains(y) || y == x),
{
    let mut i: usize = 0;
    while i < s.len() && s[i] < x
        invariant
            i <= s@.len(),
            forall|j: int| 0 <= j < i ==> s@[j] < x,
        decreases s.len() - i,
    {
        i += 1;
    }
    if i < s.len() && s[i] == x {
        assert(s@[i as int] == x);
        return;
    }
    let ghost before = s@;
    s.insert(i, x);
    proof {
        before.insert_ensures(i as int, x);
    }
    assert forall|y: u32| s@.contains(y) <==> (before.contains(y) || y == x) by {
        if s@.contains(y) {
            let j = choose|j: int| 0 <= j < s@.len() && s@[j] == y;
            if j < i {
                assert(before[j] == y);
            } else if j > i {
                assert(before[j - 1] == y);
            }
        }
        if before.contains(y) {
            let j = choose|j: int| 0 <= j < before.len() && before[j] == y;
            if j < i {
                assert(s@[j] == y);
            } else {
                assert(s@[j + 1] == y);
            }
        }
        if y == x {
            assert(s@[i as int] == y);
        }
    }
}

/// The keyword abilities explained beside a card: its own abilities and
/// those its text mentions (`related`), each once, in the abilities'
/// order. An ability stands for its position in the list of keyword
/// abilities.
pub fn related_abilities(own: &Vec<u32>, related: &Vec<u32>) -> (res: Vec<u32>)
    ensures
        strictly_sorted(res@),
        forall|a: u32| res@.contains(a) <==> (own@.contains(a) || related@.contains(a)),
{
    let mut res: Vec<u32> = Vec::new();
    let mut i: usize = 0;
    while i < own.len()
        invariant
            i <= own@.len(),
            strictly_sorted(res@),
            forall|a: u32| res@.contains(a) <==> own@.take(i as int).contains(a),
        decreases own.len() - i,
    {
        let ghost old_res = res@;
        insert_sorted(&mut res, own[i]);
        proof {
            assert forall|a: u32| res@.contains(a) <==> (old_res.contains(a) || a == own@[i as int]) by {}
            assert(own@.take(i + 1) =~= own@.take(i as int).push(own@[i as int]));
            assert forall|a: u32| res@.contains(a) <==> own@.take(i + 1).contains(a) by {
                lemma_seq_contains_after_push(own@.take(i as int), own@[i as int], a);
                assert(old_res.contains(a) <==> own@.take(i as int).contains(a));
            }
        }
        i += 1;
    }
    assert(own@.take(i as int) =~= own@);
    let mut k: usize = 0;
    while k < related.len()
        invariant
            k <= related@.len(),
            strictly_sorted(res@),
            forall|a: u32| res@.contains(a) <==> (own@.contains(a) || related@.take(k as int).contains(a)),
        decreases related.len() - k,
    {
        let ghost old_res = res@;
        insert_sorted(&mut res, related[k]);
        proof {
            assert forall|a: u32| res@.contains(a) <==> (old_res.contains(a) || a == related@[k as int]) by {}
            assert(related@.take(k + 1) =~= related@.take(k as int).push(related@[k as int]));
            assert forall|a: u32| related@.take(k + 1).contains(a) <==> (related@.take(k as int).contains(a)
                || a == related@[k as int]) by {
                lemma_seq_contains_after_push(related@.take(k as int), related@[k as int], a);
            }
        }
        k += 1;
    }
    assert(related@.take(k as int) =~= related@);
    res
}

} // verus!

//! The languages the client offers, and how a language the system asks for
//! is matched to one of them.
use vstd::prelude::*;
use unic_langid::LanguageIdentifier;

verus! {

/// A language identifier, by its subtags in canonical form: the language
/// (none for `und`), the script, the region and the variants.
#[derive(Debug, Clone)]
pub struct LangId {
    pub language: Option<String>,
    pub script: Option<String>,
    pub region: Option<String>,
    pub variants: Vec<String>,
}

/// A language identifier as mathematical values.
pub struct LangSpec {
    pub language: Option<Seq<char>>,
    pub script: Option<Seq<char>>,
    pub region: Option<Seq<char>>,
    pub variants: Seq<Seq<char>>,
}

pub open spec fn opt_text(o: Option<String>) -> Option<Seq<char>> {
    match o {
        Some(s) => Some(s@),
        None => None,
    }
}

impl LangId {
    pub open spec fn spec(&self) -> LangSpec {
        LangSpec {
            language: opt_text(self.language),
            script: opt_text(self.script),
            region: opt_text(self.region),
            variants: Seq::new(self.variants@.len(), |i: int| self.variants@[i]@),
        }
    }
}

/// A language the client offers.
#[derive(Debug, Clone)]
pub struct Language {
    pub id: LangId,
    pub name: String,
    pub aliases: Vec<LangId>,
}

/// Whether one subtag matches another, a missing subtag on a side taken as
/// a range matching anything (`matches` of unic-langid).
pub open spec fn subtag_matches(a: Option<Seq<char>>, b: Option<Seq<char>>, a_range: bool, b_range: bool) -> bool {
    (a_range && a is None) || (b_range && b is None) || a == b
}

/// Whether `a` matches `b`, subtag by subtag, the missing subtags of a side
/// taken as a range being wildcards (`LanguageIdentifier::matches`).
pub open spec fn lang_matches(a: LangSpec, b: LangSpec, a_range: bool, b_range: bool) -> bool {
    &&& subtag_matches(a.language, b.language, a_range, b_range)
    &&& subtag_matches(a.script, b.script, a_range, b_range)
    &&& subtag_matches(a.region, b.region, a_range, b_range)
    &&& ((a_range && a.variants.len() == 0) || (b_range && b.variants.len() == 0) || a.variants
        == b.variants)
}

/// A language the client offers, as mathematical values.
pub struct LanguageSpec {
    pub id: LangSpec,
    pub name: Seq<char>,
    pub aliases: Seq<LangSpec>,
}

impl Language {
    pub open spec fn spec(&self) -> LanguageSpec {
        LanguageSpec { id: self.id.spec(), name: self.name@, aliases: Seq::new(self.aliases@.len(), |i: int| self.aliases@[i].spec()) }
    }
}

/// Whether the language `l` is `id` or has it as an alias.
pub open spec fn named_by(l: LanguageSpec, id: LangSpec) -> bool {
    l.id == id || l.aliases.contains(id)
}

/// Whether the language `l`, or one of its aliases, matches `id` with
/// missing subtags on either side as wildcards.
pub open spec fn matched_by(l: LanguageSpec, id: LangSpec) -> bool {
    lang_matches(l.id, id, true, true) || exists|i: int|
        0 <= i < l.aliases.len() && lang_matches(#[trigger] l.aliases[i], id, true, true)
}

/// The first position in `langs` of a language named by `id`.
pub open spec fn first_named(langs: Seq<LanguageSpec>, id: LangSpec) -> Option<int>
    decreases langs.len(),
{
    if langs.len() == 0 {
        None
    } else if named_by(langs[0], id) {
        Some(0)
    } else {
        match first_named(langs.drop_first(), id) {
            Some(i) => Some(i + 1),
            None => None,
        }
    }
}

/// The first position in `langs` of a language matched by `id`.
pub open spec fn first_matched(langs: Seq<LanguageSpec>, id: LangSpec) -> Option<int>
    decreases langs.len(),
{
    if langs.len() == 0 {
        None
    } else if matched_by(langs[0], id) {
        Some(0)
    } else {
        match first_matched(langs.drop_first(), id) {
            Some(i) => Some(i + 1),
            None => None,
        }
    }
}

/// The position of the language chosen for `id` among `langs`: the first
/// that is it or has it as an alias; else the first that matches it with
/// missing subtags as wildcards; else the first language.
pub open spec fn chosen_language(langs: Seq<LanguageSpec>, id: LangSpec) -> int {
    match first_named(langs, id) {
        Some(i) => i,
        None => match first_matched(langs, id) {
            Some(i) => i,
            None => 0,
        },
    }
}

pub open spec fn plain_id(language: Seq<char>, region: Option<Seq<char>>) -> LangSpec {
    LangSpec { language: Some(language), script: None, region, variants: Seq::empty() }
}

/// The languages the client offers: English (en-US, also `en`), then
/// Japanese (ja-JP, also `ja`).
pub open spec fn offered_languages() -> Seq<LanguageSpec> {
    seq![
        LanguageSpec {
            id: plain_id("en"@, Some("US"@)),
            name: "English"@,
            aliases: seq![plain_id("en"@, None)],
        },
        LanguageSpec {
            id: plain_id("ja"@, Some("JP"@)),
            name: "Japanese"@,
            aliases: seq![plain_id("ja"@, None)],
        },
    ]
}

pub open spec fn specs_of(langs: Seq<Language>) -> Seq<LanguageSpec> {
    Seq::new(langs.len(), |i: int| langs[i].spec())
}

fn same_text(a: &String, b: &String) -> (res: bool)
    ensures
        res == (a@ == b@),
{
    a.eq(b)
}

fn same_opt(a: &Option<String>, b: &Option<String>) -> (res: bool)
    ensures
        res == (opt_text(*a) == opt_text(*b)),
{
    match (a, b) {
        (Some(x), Some(y)) => same_text(x, y),
        (None, None) => true,
        _ => false,
    }
}

fn same_variants(a: &Vec<String>, b: &Vec<String>) -> (res: bool)
    ensures
        res == (Seq::new(a@.len(), |i: int| a@[i]@) == Seq::new(b@.len(), |i: int| b@[i]@)),
{
    let ghost sa = Seq::new(a@.len(), |i: int| a@[i]@);
    let ghost sb = Seq::new(b@.len(), |i: int| b@[i]@);
    if a.len() != b.len() {
        assert(sa.len() != sb.len());
        return false;
    }
    let mut i: usize = 0;
    while i < a.len()
        invariant
            i <= a.len() == b.len(),
            sa == Seq::new(a@.len(), |i: int| a@[i]@),
            sb == Seq::new(b@.len(), |i: int| b@[i]@),
            forall|j: int| 0 <= j < i ==> sa[j] == sb[j],
        decreases a.len() - i,
    {
        if !same_text(&a[i], &b[i]) {
            assert(sa[i as int] != sb[i as int]);
            return false;
        }
        i += 1;
    }
    assert(sa =~= sb);
    true
}

/// Whether two identifiers are the same.
pub fn same_lang(a: &LangId, b: &LangId) -> (res: bool)
    ensures
        res == (a.spec() == b.spec()),
{
    let r = same_opt(&a.language, &b.language) && same_opt(&a.script, &b.script) && same_opt(
        &a.region,
        &b.region,
    ) && same_variants(&a.variants, &b.variants);
    r
}

fn opt_matches(a: &Option<String>, b: &Option<String>, a_range: bool, b_range: bool) -> (res: bool)
    ensures
        res == subtag_matches(opt_text(*a), opt_text(*b), a_range, b_range),
{
    (a_range && a.is_none()) || (b_range && b.is_none()) || same_opt(a, b)
}

/// Whether `a` matches `b` (see [`lang_matches`]).
pub fn id_matches(a: &LangId, b: &LangId, a_range: bool, b_range: bool) -> (res: bool)
    ensures
        res == lang_matches(a.spec(), b.spec(), a_range, b_range),
{
    opt_matches(&a.language, &b.language, a_range, b_range) && opt_matches(
        &a.script,
        &b.script,
        a_range,
        b_range,
    ) && opt_matches(&a.region, &b.region, a_range, b_range) && ((a_range && a.variants.len() == 0)
        || (b_range && b.variants.len() == 0) || same_variants(&a.variants, &b.variants))
}

fn is_named_by(l: &Language, id: &LangId) -> (res: bool)
    ensures
        res == named_by(l.spec(), id.spec()),
{
    if same_lang(&l.id, id) {
        return true;
    }
    let mut i: usize = 0;
    while i < l.aliases.len()
        invariant
            i <= l.aliases@.len(),
            forall|j: int| 0 <= j < i ==> (#[trigger] l.aliases@[j]).spec() != id.spec(),
        decreases l.aliases.len() - i,
    {
        if same_lang(&l.aliases[i], id) {
            assert(l.spec().aliases[i as int] == id.spec());
            return true;
        }
        i += 1;
    }
    proof {
        if l.spec().aliases.contains(id.spec()) {
            let j = choose|j: int| 0 <= j < l.spec().aliases.len() && l.spec().aliases[j] == id.spec();
            assert(l.aliases@[j].spec() == id.spec());
        }
    }
    false
}

fn is_matched_by(l: &Language, id: &LangId) -> (res: bool)
    ensures
        res == matched_by(l.spec(), id.spec()),
{
    if id_matches(&l.id, id, true, true) {
        return true;
    }
    let mut i: usize = 0;
    while i < l.aliases.len()
        invariant
            i <= l.aliases@.len(),
            forall|j: int| 0 <= j < i ==> !lang_matches((#[trigger] l.aliases@[j]).spec(), id.spec(), true, true),
        decreases l.aliases.len() - i,
    {
        if id_matches(&l.aliases[i], id, true, true) {
            assert(l.spec().aliases[i as int] == l.aliases@[i as int].spec());
            return true;
        }
        i += 1;
    }
    proof {
        let a = l.spec().aliases;
        assert forall|j: int| 0 <= j < a.len() implies !lang_matches(#[trigger] a[j], id.spec(), true, true) by {
            assert(a[j] == l.aliases@[j].spec());
        }
    }
    false
}

/// The position of the language chosen for `id` among `langs` (see
/// [`chosen_language`]).
pub fn find_language_in(langs: &Vec<Language>, id: &LangId) -> (res: usize)
    requires
        langs@.len() > 0,
    ensures
        res == chosen_language(specs_of(langs@), id.spec()),
        res < langs@.len(),
{
    let ghost all = specs_of(langs@);
    let mut i: usize = 0;
    assert(all.skip(0) =~= all);
    while i < langs.len()
        invariant
            i <= langs.len(),
            all == specs_of(langs@),
            first_named(all, id.spec()) == match first_named(all.skip(i as int), id.spec()) {
                Some(j) => Some(j + i),
                None => None::<int>,
            },
        decreases langs.len() - i,
    {
        proof {
            let rest = all.skip(i as int);
            assert(rest[0] == langs@[i as int].spec());
            assert(rest.drop_first() =~= all.skip(i + 1));
        }
        if is_named_by(&langs[i], id) {
            return i;
        }
        i += 1;
    }
    assert(all.skip(i as int) =~= Seq::<LanguageSpec>::empty());
    let mut k: usize = 0;
    assert(all.skip(0) =~= all);
    while k < langs.len()
        invariant
            k <= langs.len(),
            all == specs_of(langs@),
            first_named(all, id.spec()) is None,
            first_matched(all, id.spec()) == match first_matched(all.skip(k as int), id.spec()) {
                Some(j) => Some(j + k),
                None => None::<int>,
            },
        decreases langs.len() - k,
    {
        proof {
            let rest = all.skip(k as int);
            assert(rest[0] == langs@[k as int].spec());
            assert(rest.drop_first() =~= all.skip(k + 1));
        }
        if is_matched_by(&langs[k], id) {
            return k;
        }
        k += 1;
    }
    assert(all.skip(k as int) =~= Seq::<LanguageSpec>::empty());
    0
}

fn text(s: &str) -> (res: String)
    ensures
        res@ == s@,
{
    s.to_owned()
}

fn lang_id(language: &str, region: &str) -> (res: LangId)
    ensures
        res.spec() == (LangSpec {
            language: Some(language@),
            script: None,
            region: Some(region@),
            variants: Seq::empty(),
        }),
{
    let res = LangId { language: Some(text(language)), script: None, region: Some(text(region)), variants: Vec::new() };
    assert(res.spec().variants =~= Seq::<Seq<char>>::empty());
    res
}

fn bare_lang_id(language: &str) -> (res: LangId)
    ensures
        res.spec() == (LangSpec {
            language: Some(language@),
            script: None,
            region: None,
            variants: Seq::empty(),
        }),
{
    let res = LangId { language: Some(text(language)), script: None, region: None, variants: Vec::new() };
    assert(res.spec().variants =~= Seq::<Seq<char>>::empty());
    res
}

/// The languages the client offers (see [`offered_languages`]).
pub fn languages() -> (res: Vec<Language>)
    ensures
        specs_of(res@) == offered_languages(),
        res@[0].name@ == "English"@,
        res@[1].name@ == "Japanese"@,
{
    let mut en_aliases: Vec<LangId> = Vec::new();
    en_aliases.push(bare_lang_id("en"));
    let mut ja_aliases: Vec<LangId> = Vec::new();
    ja_aliases.push(bare_lang_id("ja"));
    let mut res: Vec<Language> = Vec::new();
    res.push(Language { id: lang_id("en", "US"), name: text("English"), aliases: en_aliases });
    res.push(Language { id: lang_id("ja", "JP"), name: text("Japanese"), aliases: ja_aliases });
    assert(res@[0].spec().aliases =~= seq![plain_id("en"@, None)]);
    assert(res@[1].spec().aliases =~= seq![plain_id("ja"@, None)]);
    assert(specs_of(res@) =~= offered_languages());
    res
}

/// The language the client uses for `id` among those it offers (see
/// [`chosen_language`]).
pub fn find_language(id: &LangId) -> (res: Language)
    ensures
        res.spec() == offered_languages()[chosen_language(offered_languages(), id.spec())],
{
    let mut langs = languages();
    let i = find_language_in(&langs, id);
    assert(langs@[i as int].spec() == specs_of(langs@)[i as int]);
    langs.swap_remove(i)
}


#[verifier::external_type_specification]
#[verifier::external_body]
pub struct ExLanguageIdentifierError(unic_langid::LanguageIdentifierError);

/// The subtags unic-langid parses from `text`, in canonical form (the
/// language none for `und`, the variants sorted without repeats); none
/// where it refuses the text.
pub uninterp spec fn parsed_lang_id(text: Seq<char>) -> Option<LangSpec>;

/// unic-langid's `LanguageIdentifier::from_str`, with its parts taken out by
/// `into_parts` as text.
#[verifier::external_body]
fn parse_lang_id(text: &str) -> (res: Result<LangId, unic_langid::LanguageIdentifierError>)
    ensures
        res is Ok <==> parsed_lang_id(text@) is Some,
        res matches Ok(id) ==> parsed_lang_id(text@) == Some(id.spec()),
{
    let (language, script, region, variants) = text.parse::<LanguageIdentifier>()?.into_parts();
    let mut vs: Vec<String> = Vec::new();
    for v in variants.iter() {
        vs.push(v.as_str().to_string());
    }
    let language = if language.is_empty() { None } else { Some(language.as_str().to_string()) };
    let script = match script { Some(x) => Some(x.as_str().to_string()), None => None };
    let region = match region { Some(x) => Some(x.as_str().to_string()), None => None };
    Ok(LangId { language, script, region, variants: vs })
}

impl LangId {
    /// The identifier written as `text` (such as `en-US`), if unic-langid
    /// reads it.
    pub fn parse(text: &str) -> (res: Option<LangId>)
        ensures
            match res {
                Some(id) => parsed_lang_id(text@) == Some(id.spec()),
                None => parsed_lang_id(text@) is None,
            },
    {
        match parse_lang_id(text) {
            Ok(id) => Some(id),
            Err(_) => None,
        }
    }
}

} // verus!

use vstd::prelude::*;
use crate::world::Miestnost;
use crate::text::{lowercase_text, lowercase_of, normalize, normalized, ascii_lowercase, is_plain_name, lemma_plain_name_key};

verus! {

broadcast use vstd::string::group_string_axioms;

/// The elements and products of the game.
#[derive(Copy, Clone, Debug, Hash, PartialEq, Eq, Structural)]
pub enum Element {
    Ahmedium,
    Andymon,
    Valteren,
    Rekurzium,
    Kapacitat,
    Forcyklat,
    Javascrypton,
    Misonit,
    Obskurcium,
    Rezistor,
    Droid,
    Avatar,
    Magneton,
    Triodium,
    Badassium,
    Jeep,
    Transcitor,
    Tank,
    Diodik,
    Artefact,
    Awentit,
}

/// Number of elements.
pub const ELEMENT_COUNT: usize = 21;

/// Every element, in declaration order.
pub open spec fn all_elements() -> Seq<Element> {
    seq![
        Element::Ahmedium,
        Element::Andymon,
        Element::Valteren,
        Element::Rekurzium,
        Element::Kapacitat,
        Element::Forcyklat,
        Element::Javascrypton,
        Element::Misonit,
        Element::Obskurcium,
        Element::Rezistor,
        Element::Droid,
        Element::Avatar,
        Element::Magneton,
        Element::Triodium,
        Element::Badassium,
        Element::Jeep,
        Element::Transcitor,
        Element::Tank,
        Element::Diodik,
        Element::Artefact,
        Element::Awentit,
    ]
}

/// Position of an element in declaration order.
pub open spec fn element_index(e: Element) -> int {
    match e {
        Element::Ahmedium => 0,
        Element::Andymon => 1,
        Element::Valteren => 2,
        Element::Rekurzium => 3,
        Element::Kapacitat => 4,
        Element::Forcyklat => 5,
        Element::Javascrypton => 6,
        Element::Misonit => 7,
        Element::Obskurcium => 8,
        Element::Rezistor => 9,
        Element::Droid => 10,
        Element::Avatar => 11,
        Element::Magneton => 12,
        Element::Triodium => 13,
        Element::Badassium => 14,
        Element::Jeep => 15,
        Element::Transcitor => 16,
        Element::Tank => 17,
        Element::Diodik => 18,
        Element::Artefact => 19,
        Element::Awentit => 20,
    }
}

/// The name under which the game knows an element.
pub open spec fn element_name(e: Element) -> Seq<char> {
    match e {
        Element::Ahmedium => "Ahmedium"@,
        Element::Andymon => "Andymon"@,
        Element::Valteren => "Valteren"@,
        Element::Rekurzium => "Rekurzium"@,
        Element::Kapacitat => "Kapacitat"@,
        Element::Forcyklat => "Forcyklat"@,
        Element::Javascrypton => "Javascrypton"@,
        Element::Misonit => "Misonit"@,
        Element::Obskurcium => "Obskurcium"@,
        Element::Rezistor => "Rezistor"@,
        Element::Droid => "Droid"@,
        Element::Avatar => "Avatar"@,
        Element::Magneton => "Magneton"@,
        Element::Triodium => "Triodium"@,
        Element::Badassium => "Badassium"@,
        Element::Jeep => "Jeep"@,
        Element::Transcitor => "Transcitor"@,
        Element::Tank => "Tank"@,
        Element::Diodik => "Diodik"@,
        Element::Artefact => "Artefact"@,
        Element::Awentit => "Awentit"@,
    }
}

/// The recipe book: the station where an element is crafted and the
/// ingredients it takes; `None` for what cannot be crafted.
pub open spec fn recipe_of(e: Element) -> Option<(Miestnost, Seq<Element>)> {
    match e {
        Element::Kapacitat => Some((Miestnost::Labak, seq![Element::Ahmedium, Element::Ahmedium, Element::Valteren])),
        Element::Forcyklat => Some((Miestnost::Labak, seq![Element::Ahmedium, Element::Valteren, Element::Andymon])),
        Element::Rekurzium => Some((Miestnost::Labak, seq![Element::Ahmedium, Element::Andymon, Element::Andymon])),
        Element::Javascrypton => Some((Miestnost::Labak, seq![Element::Ahmedium, Element::Valteren, Element::Valteren])),
        Element::Misonit => Some((Miestnost::Labak, seq![Element::Valteren, Element::Rekurzium, Element::Kapacitat, Element::Javascrypton])),
        Element::Obskurcium => Some((Miestnost::Labak, seq![Element::Ahmedium, Element::Forcyklat, Element::Rekurzium, Element::Rekurzium, Element::Javascrypton])),
        Element::Rezistor => Some((Miestnost::Labak, seq![Element::Andymon, Element::Forcyklat, Element::Rekurzium, Element::Rekurzium, Element::Javascrypton])),
        Element::Droid => Some((Miestnost::Dielna, seq![Element::Ahmedium, Element::Valteren, Element::Andymon, Element::Kapacitat, Element::Javascrypton])),
        Element::Avatar => Some((Miestnost::Dielna, seq![Element::Ahmedium, Element::Ahmedium, Element::Valteren, Element::Andymon, Element::Andymon])),
        Element::Triodium => Some((Miestnost::Labak, seq![Element::Ahmedium, Element::Valteren, Element::Forcyklat, Element::Misonit, Element::Obskurcium])),
        Element::Jeep => Some((Miestnost::Dielna, seq![Element::Forcyklat, Element::Kapacitat, Element::Javascrypton, Element::Misonit, Element::Rezistor])),
        Element::Transcitor => Some((Miestnost::Labak, seq![Element::Andymon, Element::Forcyklat, Element::Misonit, Element::Misonit, Element::Rezistor])),
        Element::Tank => Some((Miestnost::Dielna, seq![Element::Misonit, Element::Obskurcium, Element::Rezistor, Element::Magneton, Element::Transcitor])),
        Element::Diodik => Some((Miestnost::Labak, seq![Element::Rekurzium, Element::Kapacitat, Element::Misonit, Element::Rezistor, Element::Rezistor])),
        _ => None,
    }
}

/// How many crafting steps lie between an element and the raw elements.
pub open spec fn tier(e: Element) -> nat {
    match e {
        Element::Ahmedium => 0,
        Element::Andymon => 0,
        Element::Valteren => 0,
        Element::Rekurzium => 1,
        Element::Kapacitat => 1,
        Element::Forcyklat => 1,
        Element::Javascrypton => 1,
        Element::Misonit => 2,
        Element::Obskurcium => 2,
        Element::Rezistor => 2,
        Element::Droid => 2,
        Element::Avatar => 1,
        Element::Magneton => 0,
        Element::Triodium => 3,
        Element::Badassium => 0,
        Element::Jeep => 3,
        Element::Transcitor => 3,
        Element::Tank => 4,
        Element::Diodik => 3,
        Element::Artefact => 0,
        Element::Awentit => 0,
    }
}

/// A recipe: where it is crafted and what goes into it.
pub struct Recipe {
    pub station: Miestnost,
    pub ingredients: Vec<Element>,
}

impl View for Recipe {
    type V = (Miestnost, Seq<Element>);

    open spec fn view(&self) -> (Miestnost, Seq<Element>) {
        (self.station, self.ingredients@)
    }
}

/// What the player carries.
pub struct Inventory {
    pub items: Vec<Element>,
}

impl View for Inventory {
    type V = Seq<Element>;

    open spec fn view(&self) -> Seq<Element> {
        self.items@
    }
}

impl Element {
    /// The recipe for `self`, if it can be crafted.
    pub fn get_recipe(self) -> (r: Option<Recipe>)
        ensures
            r matches Some(rec) ==> recipe_of(self) == Some(rec@),
            r is None <==> recipe_of(self) is None,
    {
        let r = match self {
            Element::Kapacitat => Recipe { station: Miestnost::Labak, ingredients: vec![Element::Ahmedium, Element::Ahmedium, Element::Valteren] },
            Element::Forcyklat => Recipe { station: Miestnost::Labak, ingredients: vec![Element::Ahmedium, Element::Valteren, Element::Andymon] },
            Element::Rekurzium => Recipe { station: Miestnost::Labak, ingredients: vec![Element::Ahmedium, Element::Andymon, Element::Andymon] },
            Element::Javascrypton => Recipe { station: Miestnost::Labak, ingredients: vec![Element::Ahmedium, Element::Valteren, Element::Valteren] },
            Element::Misonit => Recipe { station: Miestnost::Labak, ingredients: vec![Element::Valteren, Element::Rekurzium, Element::Kapacitat, Element::Javascrypton] },
            Element::Obskurcium => Recipe { station: Miestnost::Labak, ingredients: vec![Element::Ahmedium, Element::Forcyklat, Element::Rekurzium, Element::Rekurzium, Element::Javascrypton] },
            Element::Rezistor => Recipe { station: Miestnost::Labak, ingredients: vec![Element::Andymon, Element::Forcyklat, Element::Rekurzium, Element::Rekurzium, Element::Javascrypton] },
            Element::Droid => Recipe { station: Miestnost::Dielna, ingredients: vec![Element::Ahmedium, Element::Valteren, Element::Andymon, Element::Kapacitat, Element::Javascrypton] },
            Element::Avatar => Recipe { station: Miestnost::Dielna, ingredients: vec![Element::Ahmedium, Element::Ahmedium, Element::Valteren, Element::Andymon, Element::Andymon] },
            Element::Triodium => Recipe { station: Miestnost::Labak, ingredients: vec![Element::Ahmedium, Element::Valteren, Element::Forcyklat, Element::Misonit, Element::Obskurcium] },
            Element::Jeep => Recipe { station: Miestnost::Dielna, ingredients: vec![Element::Forcyklat, Element::Kapacitat, Element::Javascrypton, Element::Misonit, Element::Rezistor] },
            Element::Transcitor => Recipe { station: Miestnost::Labak, ingredients: vec![Element::Andymon, Element::Forcyklat, Element::Misonit, Element::Misonit, Element::Rezistor] },
            Element::Tank => Recipe { station: Miestnost::Dielna, ingredients: vec![Element::Misonit, Element::Obskurcium, Element::Rezistor, Element::Magneton, Element::Transcitor] },
            Element::Diodik => Recipe { station: Miestnost::Labak, ingredients: vec![Element::Rekurzium, Element::Kapacitat, Element::Misonit, Element::Rezistor, Element::Rezistor] },
            _ => {
                return None;
            },
        };
        proof {
            assert(recipe_of(self) == Some(r@));
        }
        Some(r)
    }

    /// Position of the element in declaration order.
    pub fn index(self) -> (i: usize)
        ensures
            i as int == element_index(self),
            i < ELEMENT_COUNT,
    {
        match self {
            Element::Ahmedium => 0,
            Element::Andymon => 1,
            Element::Valteren => 2,
            Element::Rekurzium => 3,
            Element::Kapacitat => 4,
            Element::Forcyklat => 5,
            Element::Javascrypton => 6,
            Element::Misonit => 7,
            Element::Obskurcium => 8,
            Element::Rezistor => 9,
            Element::Droid => 10,
            Element::Avatar => 11,
            Element::Magneton => 12,
            Element::Triodium => 13,
            Element::Badassium => 14,
            Element::Jeep => 15,
            Element::Transcitor => 16,
            Element::Tank => 17,
            Element::Diodik => 18,
            Element::Artefact => 19,
            Element::Awentit => 20,
        }
    }

    /// The name under which the game knows the element.
    pub fn to_string(&self) -> (s: String)
        ensures
            s@ == element_name(*self),
    {
        let t: &str = match *self {
            Element::Ahmedium => "Ahmedium",
            Element::Andymon => "Andymon",
            Element::Valteren => "Valteren",
            Element::Rekurzium => "Rekurzium",
            Element::Kapacitat => "Kapacitat",
            Element::Forcyklat => "Forcyklat",
            Element::Javascrypton => "Javascrypton",
            Element::Misonit => "Misonit",
            Element::Obskurcium => "Obskurcium",
            Element::Rezistor => "Rezistor",
            Element::Droid => "Droid",
            Element::Avatar => "Avatar",
            Element::Magneton => "Magneton",
            Element::Triodium => "Triodium",
            Element::Badassium => "Badassium",
            Element::Jeep => "Jeep",
            Element::Transcitor => "Transcitor",
            Element::Tank => "Tank",
            Element::Diodik => "Diodik",
            Element::Artefact => "Artefact",
            Element::Awentit => "Awentit",
        };
        proof {
            reveal_strlit("Ahmedium");
            reveal_strlit("Andymon");
            reveal_strlit("Valteren");
            reveal_strlit("Rekurzium");
            reveal_strlit("Kapacitat");
            reveal_strlit("Forcyklat");
            reveal_strlit("Javascrypton");
            reveal_strlit("Misonit");
            reveal_strlit("Obskurcium");
            reveal_strlit("Rezistor");
            reveal_strlit("Droid");
            reveal_strlit("Avatar");
            reveal_strlit("Magneton");
            reveal_strlit("Triodium");
            reveal_strlit("Badassium");
            reveal_strlit("Jeep");
            reveal_strlit("Transcitor");
            reveal_strlit("Tank");
            reveal_strlit("Diodik");
            reveal_strlit("Artefact");
            reveal_strlit("Awentit");
        }
        t.to_string()
    }
}

/// Law of the recipe book: the game's recipes, entry by entry, with the
/// station and the ingredients in the order they are handed over; the raw
/// elements and the found products have none.
pub proof fn lemma_recipe_book()
    ensures
        recipe_of(Element::Kapacitat) == Some((Miestnost::Labak, seq![Element::Ahmedium, Element::Ahmedium, Element::Valteren])),
        recipe_of(Element::Forcyklat) == Some((Miestnost::Labak, seq![Element::Ahmedium, Element::Valteren, Element::Andymon])),
        recipe_of(Element::Rekurzium) == Some((Miestnost::Labak, seq![Element::Ahmedium, Element::Andymon, Element::Andymon])),
        recipe_of(Element::Javascrypton) == Some((Miestnost::Labak, seq![Element::Ahmedium, Element::Valteren, Element::Valteren])),
        recipe_of(Element::Misonit) == Some((Miestnost::Labak, seq![Element::Valteren, Element::Rekurzium, Element::Kapacitat, Element::Javascrypton])),
        recipe_of(Element::Obskurcium) == Some((Miestnost::Labak, seq![Element::Ahmedium, Element::Forcyklat, Element::Rekurzium, Element::Rekurzium, Element::Javascrypton])),
        recipe_of(Element::Rezistor) == Some((Miestnost::Labak, seq![Element::Andymon, Element::Forcyklat, Element::Rekurzium, Element::Rekurzium, Element::Javascrypton])),
        recipe_of(Element::Droid) == Some((Miestnost::Dielna, seq![Element::Ahmedium, Element::Valteren, Element::Andymon, Element::Kapacitat, Element::Javascrypton])),
        recipe_of(Element::Avatar) == Some((Miestnost::Dielna, seq![Element::Ahmedium, Element::Ahmedium, Element::Valteren, Element::Andymon, Element::Andymon])),
        recipe_of(Element::Triodium) == Some((Miestnost::Labak, seq![Element::Ahmedium, Element::Valteren, Element::Forcyklat, Element::Misonit, Element::Obskurcium])),
        recipe_of(Element::Jeep) == Some((Miestnost::Dielna, seq![Element::Forcyklat, Element::Kapacitat, Element::Javascrypton, Element::Misonit, Element::Rezistor])),
        recipe_of(Element::Transcitor) == Some((Miestnost::Labak, seq![Element::Andymon, Element::Forcyklat, Element::Misonit, Element::Misonit, Element::Rezistor])),
        recipe_of(Element::Tank) == Some((Miestnost::Dielna, seq![Element::Misonit, Element::Obskurcium, Element::Rezistor, Element::Magneton, Element::Transcitor])),
        recipe_of(Element::Diodik) == Some((Miestnost::Labak, seq![Element::Rekurzium, Element::Kapacitat, Element::Misonit, Element::Rezistor, Element::Rezistor])),
        recipe_of(Element::Ahmedium) is None,
        recipe_of(Element::Andymon) is None,
        recipe_of(Element::Valteren) is None,
        recipe_of(Element::Magneton) is None,
        recipe_of(Element::Badassium) is None,
        recipe_of(Element::Artefact) is None,
        recipe_of(Element::Awentit) is None,
{
}

/// Law of the recipe book: every ingredient is strictly closer to the raw
/// elements than what it makes, so no element needs itself.
pub proof fn lemma_ingredients_lower_tier(e: Element, i: int)
    requires
        recipe_of(e) is Some,
        0 <= i < recipe_of(e).unwrap().1.len(),
    ensures
        tier(recipe_of(e).unwrap().1[i]) < tier(e),
{
}


/// The first element of `es` whose lowercased name is `key`.
pub open spec fn element_by_key(es: Seq<Element>, key: Seq<char>) -> Option<Element>
    decreases es.len(),
{
    if es.len() == 0 {
        None
    } else if lowercase_of(element_name(es[0])) == key {
        Some(es[0])
    } else {
        element_by_key(es.drop_first(), key)
    }
}

impl Element {
    /// Every element, in declaration order.
    pub fn all() -> (r: Vec<Element>)
        ensures
            r@ == all_elements(),
    {
        let r = vec![Element::Ahmedium, Element::Andymon, Element::Valteren, Element::Rekurzium, Element::Kapacitat, Element::Forcyklat, Element::Javascrypton, Element::Misonit, Element::Obskurcium, Element::Rezistor, Element::Droid, Element::Avatar, Element::Magneton, Element::Triodium, Element::Badassium, Element::Jeep, Element::Transcitor, Element::Tank, Element::Diodik, Element::Artefact, Element::Awentit];
        proof {
            assert(r@ =~= all_elements());
        }
        r
    }

    /// The element that a text names, ignoring surrounding whitespace, case
    /// and accents: the first element, in declaration order, whose lowercased
    /// name equals the lookup key of the text; `Err(())` when none does.
    pub fn from_str(s: &str) -> (r: Result<Element, ()>)
        ensures
            r == (match element_by_key(all_elements(), normalized(s@)) {
                Some(e) => Ok(e),
                None => Err(()),
            }),
    {
        let key = normalize(s);
        let es = Element::all();
        let mut i: usize = 0;
        proof {
            assert(es@.skip(0) =~= es@);
        }
        while i < es.len()
            invariant
                es@ == all_elements(),
                key@ == normalized(s@),
                0 <= i <= es.len(),
                element_by_key(all_elements(), key@) == element_by_key(es@.skip(i as int), key@),
            decreases es.len() - i,
        {
            let e = es[i];
            let name = e.to_string();
            let low = lowercase_text(name.as_str());
            proof {
                assert(es@.skip(i as int)[0] == e);
                assert(es@.skip(i as int).drop_first() =~= es@.skip(i + 1));
            }
            if low == key {
                return Ok(e);
            }
            i = i + 1;
        }
        Err(())
    }
}


/// The lowercase name of an element.
pub open spec fn lower_name(e: Element) -> Seq<char> {
    match e {
        Element::Ahmedium => "ahmedium"@,
        Element::Andymon => "andymon"@,
        Element::Valteren => "valteren"@,
        Element::Rekurzium => "rekurzium"@,
        Element::Kapacitat => "kapacitat"@,
        Element::Forcyklat => "forcyklat"@,
        Element::Javascrypton => "javascrypton"@,
        Element::Misonit => "misonit"@,
        Element::Obskurcium => "obskurcium"@,
        Element::Rezistor => "rezistor"@,
        Element::Droid => "droid"@,
        Element::Avatar => "avatar"@,
        Element::Magneton => "magneton"@,
        Element::Triodium => "triodium"@,
        Element::Badassium => "badassium"@,
        Element::Jeep => "jeep"@,
        Element::Transcitor => "transcitor"@,
        Element::Tank => "tank"@,
        Element::Diodik => "diodik"@,
        Element::Artefact => "artefact"@,
        Element::Awentit => "awentit"@,
    }
}

/// The lookup key of an element's name is its lowercase name, and so is
/// the lowercase of the name.
pub proof fn lemma_element_name_key(e: Element)
    ensures
        normalized(element_name(e)) == lower_name(e),
        lowercase_of(element_name(e)) == lower_name(e),
        is_plain_name(element_name(e)),
{
    match e {
        Element::Ahmedium => {
            reveal_strlit("Ahmedium");
            reveal_strlit("ahmedium");
        },
        Element::Andymon => {
            reveal_strlit("Andymon");
            reveal_strlit("andymon");
        },
        Element::Valteren => {
            reveal_strlit("Valteren");
            reveal_strlit("valteren");
        },
        Element::Rekurzium => {
            reveal_strlit("Rekurzium");
            reveal_strlit("rekurzium");
        },
        Element::Kapacitat => {
            reveal_strlit("Kapacitat");
            reveal_strlit("kapacitat");
        },
        Element::Forcyklat => {
            reveal_strlit("Forcyklat");
            reveal_strlit("forcyklat");
        },
        Element::Javascrypton => {
            reveal_strlit("Javascrypton");
            reveal_strlit("javascrypton");
        },
        Element::Misonit => {
            reveal_strlit("Misonit");
            reveal_strlit("misonit");
        },
        Element::Obskurcium => {
            reveal_strlit("Obskurcium");
            reveal_strlit("obskurcium");
        },
        Element::Rezistor => {
            reveal_strlit("Rezistor");
            reveal_strlit("rezistor");
        },
        Element::Droid => {
            reveal_strlit("Droid");
            reveal_strlit("droid");
        },
        Element::Avatar => {
            reveal_strlit("Avatar");
            reveal_strlit("avatar");
        },
        Element::Magneton => {
            reveal_strlit("Magneton");
            reveal_strlit("magneton");
        },
        Element::Triodium => {
            reveal_strlit("Triodium");
            reveal_strlit("triodium");
        },
        Element::Badassium => {
            reveal_strlit("Badassium");
            reveal_strlit("badassium");
        },
        Element::Jeep => {
            reveal_strlit("Jeep");
            reveal_strlit("jeep");
        },
        Element::Transcitor => {
            reveal_strlit("Transcitor");
            reveal_strlit("transcitor");
        },
        Element::Tank => {
            reveal_strlit("Tank");
            reveal_strlit("tank");
        },
        Element::Diodik => {
            reveal_strlit("Diodik");
            reveal_strlit("diodik");
        },
        Element::Artefact => {
            reveal_strlit("Artefact");
            reveal_strlit("artefact");
        },
        Element::Awentit => {
            reveal_strlit("Awentit");
            reveal_strlit("awentit");
        },
    }
    lemma_plain_name_key(element_name(e));
    assert(ascii_lowercase(element_name(e)) =~= lower_name(e));
}

/// The length and first two characters of a name: no two lowercase element
/// names agree on all three.
spec fn name_signature(s: Seq<char>) -> (nat, char, char) {
    (s.len(), s[0], s[1])
}

/// `name_signature` of each element's lowercase name.
spec fn lower_name_signature(e: Element) -> (nat, char, char) {
    match e {
        Element::Ahmedium => (8, 'a', 'h'),
        Element::Andymon => (7, 'a', 'n'),
        Element::Valteren => (8, 'v', 'a'),
        Element::Rekurzium => (9, 'r', 'e'),
        Element::Kapacitat => (9, 'k', 'a'),
        Element::Forcyklat => (9, 'f', 'o'),
        Element::Javascrypton => (12, 'j', 'a'),
        Element::Misonit => (7, 'm', 'i'),
        Element::Obskurcium => (10, 'o', 'b'),
        Element::Rezistor => (8, 'r', 'e'),
        Element::Droid => (5, 'd', 'r'),
        Element::Avatar => (6, 'a', 'v'),
        Element::Magneton => (8, 'm', 'a'),
        Element::Triodium => (8, 't', 'r'),
        Element::Badassium => (9, 'b', 'a'),
        Element::Jeep => (4, 'j', 'e'),
        Element::Transcitor => (10, 't', 'r'),
        Element::Tank => (4, 't', 'a'),
        Element::Diodik => (6, 'd', 'i'),
        Element::Artefact => (8, 'a', 'r'),
        Element::Awentit => (7, 'a', 'w'),
    }
}

proof fn lemma_lower_name_signature(e: Element)
    ensures
        name_signature(lower_name(e)) == lower_name_signature(e),
{
    match e {
        Element::Ahmedium => reveal_strlit("ahmedium"),
        Element::Andymon => reveal_strlit("andymon"),
        Element::Valteren => reveal_strlit("valteren"),
        Element::Rekurzium => reveal_strlit("rekurzium"),
        Element::Kapacitat => reveal_strlit("kapacitat"),
        Element::Forcyklat => reveal_strlit("forcyklat"),
        Element::Javascrypton => reveal_strlit("javascrypton"),
        Element::Misonit => reveal_strlit("misonit"),
        Element::Obskurcium => reveal_strlit("obskurcium"),
        Element::Rezistor => reveal_strlit("rezistor"),
        Element::Droid => reveal_strlit("droid"),
        Element::Avatar => reveal_strlit("avatar"),
        Element::Magneton => reveal_strlit("magneton"),
        Element::Triodium => reveal_strlit("triodium"),
        Element::Badassium => reveal_strlit("badassium"),
        Element::Jeep => reveal_strlit("jeep"),
        Element::Transcitor => reveal_strlit("transcitor"),
        Element::Tank => reveal_strlit("tank"),
        Element::Diodik => reveal_strlit("diodik"),
        Element::Artefact => reveal_strlit("artefact"),
        Element::Awentit => reveal_strlit("awentit"),
    }
}

/// No two elements share a lowercase name.
pub proof fn lemma_lower_names_distinct(a: Element, b: Element)
    ensures
        lower_name(a) == lower_name(b) ==> a == b,
{
    lemma_lower_name_signature(a);
    lemma_lower_name_signature(b);
}

proof fn lemma_first_key_match(es: Seq<Element>, e: Element)
    requires
        es.contains(e),
    ensures
        element_by_key(es, lower_name(e)) == Some(e),
    decreases es.len(),
{
    lemma_element_name_key(es[0]);
    lemma_lower_names_distinct(es[0], e);
    if es[0] != e {
        let k = choose|k: int| 0 <= k < es.len() && es[k] == e;
        assert(es.drop_first()[k - 1] == e);
        lemma_first_key_match(es.drop_first(), e);
    }
}

/// Law of element names: the name of an element is looked up as that
/// element, so `Element::from_str(&e.to_string()) == Ok(e)`.
pub proof fn lemma_element_name_round_trip(e: Element)
    ensures
        element_by_key(all_elements(), normalized(element_name(e))) == Some(e),
{
    lemma_element_name_key(e);
    assert(all_elements()[element_index(e)] == e);
    lemma_first_key_match(all_elements(), e);
}

} // verus!

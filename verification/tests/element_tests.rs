use scm_crafter::element::Element;
use scm_crafter::element::Element::{
    Ahmedium, Andymon, Artefact, Avatar, Awentit, Badassium, Diodik, Droid, Forcyklat, Javascrypton, Jeep, Kapacitat,
    Magneton, Misonit, Obskurcium, Rekurzium, Rezistor, Tank, Transcitor, Triodium, Valteren,
};
use scm_crafter::world::Miestnost;

#[test]
fn tank_recipe() {
    let r = Tank.get_recipe().unwrap();
    assert_eq!(r.station, Miestnost::Dielna);
    assert_eq!(r.ingredients, vec![Misonit, Obskurcium, Rezistor, Magneton, Transcitor]);
}

#[test]
fn kapacitat_recipe() {
    let r = Kapacitat.get_recipe().unwrap();
    assert_eq!(r.station, Miestnost::Labak);
    assert_eq!(r.ingredients, vec![Ahmedium, Ahmedium, Valteren]);
}

#[test]
fn raw_elements_have_no_recipe() {
    for e in [Ahmedium, Andymon, Valteren, Magneton, Badassium, Artefact, Awentit] {
        assert!(e.get_recipe().is_none());
    }
}

#[test]
fn every_ingredient_is_simpler() {
    // no element needs itself, directly or through its ingredients
    fn depth(e: Element) -> usize {
        match e.get_recipe() {
            None => 0,
            Some(r) => 1 + r.ingredients.iter().map(|i| depth(*i)).max().unwrap(),
        }
    }
    assert_eq!(depth(Tank), 4);
    assert_eq!(depth(Misonit), 2);
    assert_eq!(depth(Ahmedium), 0);
}

#[test]
fn element_names() {
    assert_eq!(Andymon.to_string(), "Andymon");
    assert_eq!(Javascrypton.to_string(), "Javascrypton");
    for e in Element::all() {
        assert_eq!(Element::from_str(&e.to_string()), Ok(e));
    }
}

#[test]
fn element_from_str_normalizes() {
    assert_eq!(Element::from_str("Andymón"), Ok(Andymon));
    assert_eq!(Element::from_str("  rekurzium "), Ok(Rekurzium));
    assert_eq!(Element::from_str("TANK"), Ok(Tank));
    assert_eq!(Element::from_str("Unobtainium"), Err(()));
}

#[test]
fn element_indices() {
    let all = Element::all();
    assert_eq!(all.len(), 21);
    for (i, e) in all.iter().enumerate() {
        assert_eq!(e.index(), i);
    }
    assert_eq!(all[0], Ahmedium);
    assert_eq!(all[20], Awentit);
}

use scm_crafter::element::Element::{
    Ahmedium, Andymon, Artefact, Avatar, Awentit, Badassium, Diodik, Droid, Forcyklat, Javascrypton, Jeep, Kapacitat,
    Magneton, Misonit, Obskurcium, Rekurzium, Rezistor, Tank, Transcitor, Triodium, Valteren,
};
use scm_crafter::element::{Element, Inventory};
use scm_crafter::json::Json;
use scm_crafter::session::{plan_have_items, Session, TakeError, INVENTORY_CAPACITY};
use scm_crafter::world::Miestnost;

fn count(v: &[Element], e: Element) -> usize {
    v.iter().filter(|x| **x == e).count()
}

#[test]
fn have_items_plan_takes_what_is_missing() {
    let p = plan_have_items(&vec![Ahmedium, Tank], &vec![Ahmedium, Ahmedium, Valteren]);
    assert_eq!(p.to_take, vec![Ahmedium, Valteren]);
    assert!(p.deposits.is_empty());
}

#[test]
fn have_items_plan_makes_room() {
    let carried = vec![Tank, Jeep, Droid, Avatar, Ahmedium, Misonit, Rezistor, Diodik, Magneton, Andymon];
    let wanted = vec![Ahmedium, Valteren, Valteren];
    let p = plan_have_items(&carried, &wanted);
    assert_eq!(p.to_take, vec![Valteren, Valteren]);
    // the last surplus elements go first
    assert_eq!(p.deposits, vec![Andymon, Magneton]);
}

#[test]
fn have_items_plan_always_ends_with_the_items() {
    let pool = [Ahmedium, Andymon, Valteren, Tank];
    let mut seed: u64 = 7;
    for _ in 0..200 {
        let mut next = || {
            seed = seed.wrapping_mul(6364136223846793005).wrapping_add(1442695040888963407);
            (seed >> 33) as usize
        };
        let carried: Vec<Element> = (0..next() % 11).map(|_| pool[next() % 4]).collect();
        let wanted: Vec<Element> = (0..next() % 11).map(|_| pool[next() % 4]).collect();
        let p = plan_have_items(&carried, &wanted);
        let mut after = carried.clone();
        for d in &p.deposits {
            let k = after.iter().position(|x| x == d).unwrap();
            after.remove(k);
        }
        after.extend(p.to_take.iter().copied());
        assert!(after.len() <= INVENTORY_CAPACITY);
        for e in pool {
            assert!(count(&after, e) >= count(&wanted, e));
        }
    }
}

#[test]
fn session_take_flow() {
    let mut s = Session::new();
    assert_eq!(s.current_room, Miestnost::Raketa);
    assert!(s.current_inventory.items.is_empty());
    assert_eq!(s.check_take(), Ok(()));
    let ok = Json::parse(r#"{"message":"Zobral si Tank"}"#).unwrap();
    assert_eq!(s.finish_take(Tank, &ok), Ok(()));
    assert_eq!(s.current_inventory.items, vec![Tank]);
    let err = Json::parse(r#"{"error":"Nemas"}"#).unwrap();
    assert_eq!(s.finish_take(Jeep, &err), Err(TakeError::NotEnoughItems(Jeep)));
    assert_eq!(s.current_inventory.items, vec![Tank]);
    s.set_inventory(Inventory { items: vec![Ahmedium; 10] });
    assert_eq!(s.check_take(), Err(TakeError::FullInventory));
    s.clear_inventory();
    assert!(s.current_inventory.items.is_empty());
}

#[test]
fn session_routes() {
    let mut s = Session::new();
    assert_eq!(s.route_to(Miestnost::Sklad), vec![Miestnost::Hangar, Miestnost::Hub, Miestnost::Konstrukcia, Miestnost::Sklad]);
    s.arrive(Miestnost::Sklad);
    assert!(s.route_to(Miestnost::Sklad).is_empty());
}

#[test]
fn take_error_messages() {
    assert_eq!(TakeError::FullInventory.message(), "full inventory");
    assert_eq!(TakeError::NotEnoughItems(Rezistor).message(), "not enough items Rezistor");
}

#[test]
fn have_items_plan_runs_out_when_too_many() {
    let carried = vec![Tank, Jeep, Ahmedium];
    let wanted = vec![Valteren; 11];
    let p = plan_have_items(&carried, &wanted);
    assert!(p.runs_out);
    assert_eq!(p.deposits, vec![Ahmedium, Jeep, Tank]);
    assert!(!plan_have_items(&carried, &vec![Valteren; 10]).runs_out);
}

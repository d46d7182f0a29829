use scm_crafter::world::Miestnost;
use scm_crafter::world::Miestnost::{
    Avecko, Datacentrum, Dielna, Hangar, Hub, Konstrukcia, Labak, Raketa, Sklad, Velin, Vypoctovka,
};

const ALL: [Miestnost; 11] = [
    Hub, Hangar, Raketa, Avecko, Labak, Vypoctovka, Velin, Datacentrum, Konstrukcia, Dielna, Sklad,
];

#[test]
fn neighbors_of_hub() {
    assert_eq!(Hub.get_neighbors(), vec![Vypoctovka, Hangar, Avecko, Konstrukcia]);
    assert_eq!(Sklad.get_neighbors(), vec![Konstrukcia]);
    assert_eq!(Vypoctovka.get_neighbors(), vec![Hub, Datacentrum, Velin]);
}

#[test]
fn pathfind_same_room_is_empty() {
    for r in ALL {
        assert!(r.pathfind(r).is_empty());
    }
}

#[test]
fn pathfind_hub_to_hangar_goes_through_vypoctovka() {
    // The search does not mark its starting room, so it wanders back to it.
    assert_eq!(Hub.pathfind(Hangar), vec![Vypoctovka, Hub, Hangar]);
}

#[test]
fn pathfind_rocket_to_storage() {
    assert_eq!(Raketa.pathfind(Sklad), vec![Hangar, Hub, Konstrukcia, Sklad]);
    assert_eq!(Sklad.pathfind(Labak), vec![Konstrukcia, Hub, Avecko, Labak]);
}

#[test]
fn pathfind_neighbor() {
    assert_eq!(Dielna.pathfind(Konstrukcia), vec![Konstrukcia]);
    assert_eq!(Labak.pathfind(Avecko), vec![Avecko]);
}

#[test]
fn pathfind_is_always_a_walk_to_the_target() {
    for a in ALL {
        for b in ALL {
            let p = a.pathfind(b);
            if a == b {
                assert!(p.is_empty());
                continue;
            }
            assert_eq!(*p.last().unwrap(), b);
            let mut here = a;
            for step in &p {
                assert!(here.get_neighbors().contains(step));
                here = *step;
            }
            for i in 0..p.len() {
                for j in 0..i {
                    assert_ne!(p[i], p[j]);
                }
            }
        }
    }
}

#[test]
fn room_from_str_normalizes() {
    assert_eq!(Miestnost::from_str("  AVečko "), Ok(Avecko));
    assert_eq!(Miestnost::from_str("Výpočtovka"), Ok(Vypoctovka));
    assert_eq!(Miestnost::from_str("sklad"), Ok(Sklad));
    assert_eq!(Miestnost::from_str("KONŠTRUKCIA\n"), Ok(Konstrukcia));
    assert_eq!(Miestnost::from_str("kuchyna"), Err(()));
    assert_eq!(Miestnost::from_str(""), Err(()));
}

#[test]
fn room_names_round_trip() {
    for r in ALL {
        assert_eq!(Miestnost::from_str(&r.to_string()), Ok(r));
    }
    assert_eq!(Datacentrum.to_string(), "Datacentrum");
}

#[test]
fn from_normalized_needs_exact_key() {
    assert_eq!(Miestnost::from_normalized("hub"), Some(Hub));
    assert_eq!(Miestnost::from_normalized("Hub"), None);
    assert_eq!(Miestnost::from_normalized(" hub"), None);
}

#[test]
fn room_index_is_declaration_order() {
    for (i, r) in ALL.iter().enumerate() {
        assert_eq!(r.index(), i);
    }
}

#[test]
fn doors_form_a_tree() {
    let mut entries = 0;
    for a in ALL {
        for b in a.get_neighbors() {
            assert!(b.get_neighbors().contains(&a));
            entries += 1;
        }
    }
    assert_eq!(entries, 20);
    for r in ALL {
        if r != Hub {
            assert_eq!(*Hub.pathfind(r).last().unwrap(), r);
        }
    }
}

use scm_crafter::craft::plan_crafts;
use scm_crafter::element::Element::{
    Ahmedium, Andymon, Artefact, Avatar, Awentit, Badassium, Diodik, Droid, Forcyklat, Javascrypton, Jeep, Kapacitat,
    Magneton, Misonit, Obskurcium, Rekurzium, Rezistor, Tank, Transcitor, Triodium, Valteren,
};
use scm_crafter::element::{Element, ELEMENT_COUNT};
use scm_crafter::search::{recipe_id, RecipeSearch, TriedRecipes};

#[test]
fn plan_for_raw_element_is_empty() {
    let mut stock = vec![0u32; ELEMENT_COUNT];
    assert!(plan_crafts(Ahmedium, &mut stock).is_empty());
}

#[test]
fn plan_crafts_missing_ingredients_first() {
    let mut stock = vec![0u32; ELEMENT_COUNT];
    assert_eq!(plan_crafts(Misonit, &mut stock), vec![Rekurzium, Kapacitat, Javascrypton, Misonit]);
    assert_eq!(stock, vec![0u32; ELEMENT_COUNT]);
}

#[test]
fn plan_uses_stock() {
    let mut stock = vec![0u32; ELEMENT_COUNT];
    stock[Kapacitat.index()] = 1;
    stock[Rekurzium.index()] = 2;
    assert_eq!(plan_crafts(Misonit, &mut stock), vec![Javascrypton, Misonit]);
    assert_eq!(stock[Kapacitat.index()], 0);
    assert_eq!(stock[Rekurzium.index()], 1);
}

#[test]
fn plan_for_tank() {
    let mut stock = vec![0u32; ELEMENT_COUNT];
    let plan = plan_crafts(Tank, &mut stock);
    assert_eq!(*plan.last().unwrap(), Tank);
    assert!(plan.iter().all(|e| e.get_recipe().is_some()));
    assert_eq!(plan.iter().filter(|e| **e == Misonit).count(), 3);
}

#[test]
fn recipe_ids_are_sorted_names() {
    assert_eq!(recipe_id(&vec![Valteren, Ahmedium, Andymon]), "AhmediumAndymonValteren");
    assert_eq!(recipe_id(&vec![Andymon, Valteren, Ahmedium]), recipe_id(&vec![Ahmedium, Andymon, Valteren]));
    assert_eq!(recipe_id(&vec![]), "");
}

#[test]
fn search_walks_every_combination_once() {
    let bruteforcing = vec![Ahmedium, Andymon, Valteren];
    let mut s = RecipeSearch::new(bruteforcing.clone(), 2, 2);
    let mut seen: Vec<Vec<usize>> = Vec::new();
    let mut candidates: Vec<Vec<Element>> = Vec::new();
    loop {
        seen.push(s.counts()[..3].to_vec());
        if let Some(c) = s.candidate() {
            candidates.push(c);
        }
        if !s.advance() {
            break;
        }
    }
    assert_eq!(seen.len(), 27);
    assert_eq!(seen[0], vec![0, 0, 0]);
    assert_eq!(seen[1], vec![1, 0, 0]);
    assert_eq!(seen[3], vec![0, 1, 0]);
    assert_eq!(seen[26], vec![2, 2, 2]);
    for i in 0..seen.len() {
        for j in 0..i {
            assert_ne!(seen[i], seen[j]);
        }
    }
    assert_eq!(s.counts()[..3].to_vec(), vec![0, 0, 3]);
    assert_eq!(candidates.len(), 6);
    assert_eq!(candidates[0], vec![Ahmedium, Ahmedium]);
    assert_eq!(candidates[1], vec![Ahmedium, Andymon]);
}

#[test]
fn search_total_and_saves() {
    let mut s = RecipeSearch::new(vec![Tank], 1, 3);
    assert_eq!(s.total_count(), 0);
    assert!(s.candidate().is_none());
    assert!(s.advance());
    assert_eq!(s.total_count(), 1);
    assert_eq!(s.ingredients(), vec![Tank]);
    for k in 1..=20 {
        let save = s.note_tried();
        assert_eq!(save, k % 10 == 0);
    }
    assert_eq!(s.tried(), 20);
}

#[test]
fn search_without_elements_never_ends() {
    let mut s = RecipeSearch::new(vec![], 0, 1);
    for _ in 0..5 {
        assert!(s.advance());
        assert_eq!(s.candidate(), Some(vec![]));
    }
}

#[test]
fn missing_ingredients_come_before_their_recipe() {
    let mut stock = vec![0u32; ELEMENT_COUNT];
    stock[Rezistor.index()] = 1;
    let plan = plan_crafts(Tank, &mut stock);
    let last = plan.len() - 1;
    assert_eq!(plan[last], Tank);
    for ing in [Misonit, Obskurcium, Transcitor] {
        assert!(plan[..last].contains(&ing));
    }
    // Tank's Rezistor comes from storage; the one inside Transcitor is crafted
    assert_eq!(stock[Rezistor.index()], 0);
    assert_eq!(plan.iter().filter(|e| **e == Rezistor).count(), 1);
}

#[test]
fn tried_recipes_record_each_key_once() {
    let mut t = TriedRecipes::new();
    assert!(t.insert("AhmediumTank".to_string()));
    assert!(t.insert("Jeep".to_string()));
    assert!(!t.insert("AhmediumTank".to_string()));
    assert!(t.contains("Jeep"));
    assert!(!t.contains("Tank"));
    assert_eq!(t.to_text(), "AhmediumTank\nJeep");
    let loaded = TriedRecipes::from_text("a\nb\r\na\n");
    assert_eq!(loaded.to_text(), "a\nb");
    assert!(loaded.contains("a") && loaded.contains("b") && !loaded.contains("a\nb"));
    assert_eq!(TriedRecipes::from_text("").to_text(), "");
}

#[test]
fn tried_record_reads_back() {
    let mut t = TriedRecipes::new();
    assert!(t.insert(recipe_id(&vec![Tank, Ahmedium])));
    assert!(t.insert(recipe_id(&vec![Jeep])));
    let text = t.to_text();
    assert_eq!(text, "AhmediumTank\nJeep");
    let back = TriedRecipes::from_text(&text);
    assert_eq!(back.to_text(), text);
    assert!(back.contains("AhmediumTank") && back.contains("Jeep"));
}

#[test]
fn record_lines_split_as_str_lines_does() {
    let t = TriedRecipes::from_text("foo\r\nbar\n\nbaz\r");
    assert_eq!(t.to_text(), "foo\nbar\n\nbaz\r");
    assert!(t.contains("") && t.contains("baz\r") && !t.contains("foo\r"));
    assert_eq!(TriedRecipes::from_text("\n").to_text(), "");
    assert!(TriedRecipes::from_text("\n").contains(""));
}

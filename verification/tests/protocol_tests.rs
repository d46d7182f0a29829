use scm_crafter::element::Element::{
    Ahmedium, Andymon, Artefact, Avatar, Awentit, Badassium, Diodik, Droid, Forcyklat, Javascrypton, Jeep, Kapacitat,
    Magneton, Misonit, Obskurcium, Rekurzium, Rezistor, Tank, Transcitor, Triodium, Valteren,
};
use scm_crafter::json::Json;
use scm_crafter::protocol::{
    accept_reply, craft_args, expected_reply, go_args, inventory_from_reply, reply_is_error, reply_matches,
    request_line, room_from_login, unknown_recipe_reply, use_args,
};
use scm_crafter::world::Miestnost;

fn parsed(text: &str) -> Json {
    Json::parse(text).unwrap()
}

#[test]
fn parse_json_reads_fields() {
    let j = parsed(r#"{"action":"look","location":{"name":"Raketa"},"n":3}"#);
    assert_eq!(j.text_field("action"), Some("look"));
    assert!(j.has_key("n"));
    assert!(!j.has_key("error"));
    assert_eq!(j.field("location").unwrap().text_field("name"), Some("Raketa"));
    assert!(Json::parse("{not json").is_none());
    assert!(Json::parse("").is_none());
}

#[test]
fn request_lines() {
    assert_eq!(request_line("go", &vec!["Hub".to_string()]), "{\"action\":\".go\",\"args\":[\"Hub\"]}\n");
    assert_eq!(request_line("examine", &vec![]), "{\"action\":\".examine\",\"args\":[]}\n");
    assert_eq!(
        request_line("login", &vec!["me".to_string(), "k\"ey".to_string()]),
        "{\"action\":\".login\",\"args\":[\"me\",\"k\\\"ey\"]}\n"
    );
}

#[test]
fn expected_replies() {
    assert_eq!(expected_reply("order"), None);
    assert_eq!(expected_reply("login"), Some("look".to_string()));
    assert_eq!(expected_reply("craft"), Some("craft".to_string()));
}

#[test]
fn replies_that_match() {
    assert!(reply_matches("go", &parsed(r#"{"action":"go"}"#)));
    assert!(!reply_matches("go", &parsed(r#"{"action":"look"}"#)));
    assert!(reply_matches("go", &parsed(r#"{"error":"nope"}"#)));
    assert!(reply_matches("use", &parsed(r#"{"message":"Zobral si Ahmedium"}"#)));
    assert!(reply_matches("use", &parsed(r#"{"message":"Odovzdal si Tank"}"#)));
    assert!(!reply_matches("use", &parsed(r#"{"message":"Ahoj"}"#)));
    assert!(!reply_matches("go", &parsed(r#"{"message":"Zobral si Ahmedium"}"#)));
    assert!(!reply_matches("go", &parsed(r#"[1,2]"#)));
}

#[test]
fn accept_reply_skips_noise() {
    assert!(accept_reply("go", "garbage\n").is_none());
    assert!(accept_reply("go", "{\"action\":\"chat\"}\n").is_none());
    let j = accept_reply("go", "{\"action\":\"go\",\"x\":1}\n").unwrap();
    assert!(j.has_key("x"));
}

#[test]
fn login_room() {
    assert_eq!(room_from_login(&parsed(r#"{"location":{"name":"AVečko"}}"#)), Some(Miestnost::Avecko));
    assert_eq!(room_from_login(&parsed(r#"{"location":{"name":"Mars"}}"#)), None);
    assert_eq!(room_from_login(&parsed(r#"{"location":"Hub"}"#)), None);
    assert_eq!(room_from_login(&parsed(r#"{}"#)), None);
}

#[test]
fn inventory_listing() {
    let inv = inventory_from_reply(&parsed(r#"{"items":[{"name":"Ahmedium"},{"name":"Andymón"},{"name":"Tank"}]}"#)).unwrap();
    assert_eq!(inv.items, vec![Ahmedium, Andymon, Tank]);
    let none = inventory_from_reply(&parsed(r#"{"action":"examine"}"#)).unwrap();
    assert!(none.items.is_empty());
    assert!(inventory_from_reply(&parsed(r#"{"items":[{"name":"Ahmedium"},{"name":"Gold"}]}"#)).is_none());
    assert!(inventory_from_reply(&parsed(r#"{"items":[{"id":"x"}]}"#)).is_none());
}

#[test]
fn error_replies() {
    assert!(reply_is_error(&parsed(r#"{"error":"x"}"#)));
    assert!(!reply_is_error(&parsed(r#"{"ok":true}"#)));
    assert_eq!(unknown_recipe_reply(&parsed(r#"{"error":"Recept pre tieto veci neexistuje"}"#)), Some(true));
    assert_eq!(unknown_recipe_reply(&parsed(r#"{"error":"Nemas veci"}"#)), Some(false));
    assert_eq!(unknown_recipe_reply(&parsed(r#"{"crafted":[]}"#)), None);
}

#[test]
fn command_arguments() {
    assert_eq!(use_args("deposit", Tank), vec!["elem".to_string(), "deposit".to_string(), "Tank".to_string()]);
    assert_eq!(go_args(Miestnost::Sklad), vec!["Sklad".to_string()]);
    assert_eq!(craft_args(&vec![Ahmedium, Ahmedium, Valteren]), vec!["Ahmedium", "Ahmedium", "Valteren"]);
}

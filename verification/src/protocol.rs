use vstd::prelude::*;
use crate::element::{Element, Inventory, element_by_key, all_elements, element_name};
use crate::json::{Json, json_field, json_members, json_text, json_document};
use crate::text::{normalized, same_text, texts};
use crate::world::{Miestnost, room_by_key, room_name};

verus! {

broadcast use vstd::string::group_string_axioms;

/// `p` is the beginning of `s`.
pub open spec fn has_prefix(s: Seq<char>, p: Seq<char>) -> bool {
    p.len() <= s.len() && s.subrange(0, p.len() as int) == p
}

/// `str::starts_with`, as its documentation states: whether `p` is the
/// beginning of `s`.
#[verifier::external_body]
fn starts_with_text(s: &str, p: &str) -> (r: bool)
    ensures
        r == has_prefix(s@, p@),
{
    s.starts_with(p)
}

/// What `json::JsonValue::dump` writes for the object `{k1: v1, k2: v2}`,
/// with a string `v1` and an array of strings `v2`.
pub uninterp spec fn pair_object_text(k1: Seq<char>, v1: Seq<char>, k2: Seq<char>, v2: Seq<Seq<char>>) -> Seq<char>;

/// Builds the object `{k1: v1, k2: v2}` with `JsonValue::new_object` and
/// `JsonValue::insert`, and writes it out with `JsonValue::dump`; the text is
/// named `pair_object_text`.
#[verifier::external_body]
fn dump_pair_object(k1: &str, v1: &str, k2: &str, v2: &Vec<String>) -> (r: String)
    ensures
        r@ == pair_object_text(k1@, v1@, k2@, texts(v2@)),
{
    let mut o = json::JsonValue::new_object();
    let _ = o.insert(k1, v1);
    let _ = o.insert(k2, v2.clone());
    o.dump()
}

/// The line sent to the server for a command: the object
/// `{"action": "." + action, "args": args}`, then a newline.
pub open spec fn request_line_text(action: Seq<char>, args: Seq<Seq<char>>) -> Seq<char> {
    pair_object_text("action"@, seq!['.'] + action, "args"@, args) + seq!['\n']
}

/// The line sent to the server for a command.
pub fn request_line(action: &str, args: &Vec<String>) -> (r: String)
    ensures
        r@ == request_line_text(action@, texts(args@)),
{
    let mut dotted = ".".to_string();
    proof {
        reveal_strlit(".");
    }
    dotted.append(action);
    proof {
        assert(dotted@ =~= seq!['.'] + action@);
    }
    let mut line = dump_pair_object("action", dotted.as_str(), "args", args);
    line.append("\n");
    proof {
        reveal_strlit("\n");
        assert(line@ =~= request_line_text(action@, texts(args@)));
    }
    line
}

/// The `action` of the reply that answers a command: none for `order`, which
/// gets no reply; `look` for `login`; the command itself otherwise.
pub open spec fn expected_reply_action(action: Seq<char>) -> Option<Seq<char>> {
    if action == "order"@ {
        None
    } else if action == "login"@ {
        Some("look"@)
    } else {
        Some(action)
    }
}

/// The `action` of the reply that answers a command.
pub fn expected_reply(action: &str) -> (r: Option<String>)
    ensures
        match r {
            Some(s) => expected_reply_action(action@) == Some(s@),
            None => expected_reply_action(action@) is None,
        },
{
    if same_text(action, "order") {
        None
    } else if same_text(action, "login") {
        Some("look".to_string())
    } else {
        Some(action.to_string())
    }
}

/// Whether a message confirms a take or a deposit at the storage.
pub open spec fn confirms_transfer(message: Option<Seq<char>>) -> bool {
    match message {
        Some(m) => has_prefix(m, "Zobral si"@) || has_prefix(m, "Odovzdal si"@),
        None => false,
    }
}

/// Whether a reply answers the command that waits for `action`: its
/// `action` is that one, or it reports an error, or, for `use`, its message
/// confirms a take or a deposit.
pub open spec fn reply_accepted(action: Seq<char>, j: Json) -> bool {
    ||| json_text(json_field(j, "action"@)) == Some(action)
    ||| json_field(j, "error"@) is Some
    ||| (action == "use"@ && confirms_transfer(json_text(json_field(j, "message"@))))
}

/// Whether a reply answers the command that waits for `action`.
pub fn reply_matches(action: &str, reply: &Json) -> (r: bool)
    ensures
        r == reply_accepted(action@, *reply),
{
    let same_action = match reply.text_field("action") {
        Some(a) => same_text(a, action),
        None => false,
    };
    if same_action {
        return true;
    }
    if reply.has_key("error") {
        return true;
    }
    if same_text(action, "use") {
        match reply.text_field("message") {
            Some(m) => starts_with_text(m, "Zobral si") || starts_with_text(m, "Odovzdal si"),
            None => false,
        }
    } else {
        false
    }
}

/// Law of replies: whatever command is waited for, a reply that reports an
/// error answers it, as does a reply whose `action` is that command, and for
/// `use` a reply whose message confirms a take or a deposit; no other reply
/// does.
pub proof fn lemma_reply_accepted(action: Seq<char>, j: Json)
    ensures
        json_field(j, "error"@) is Some ==> reply_accepted(action, j),
        json_text(json_field(j, "action"@)) == Some(action) ==> reply_accepted(action, j),
        action == "use"@ && confirms_transfer(json_text(json_field(j, "message"@))) ==> reply_accepted(action, j),
        reply_accepted(action, j) ==> {
            ||| json_field(j, "error"@) is Some
            ||| json_text(json_field(j, "action"@)) == Some(action)
            ||| (action == "use"@ && confirms_transfer(json_text(json_field(j, "message"@))))
        },
{
}

/// Law of waiting for a reply: a line that parses as a reply reporting an
/// error is taken as the answer, whatever command is waited for.
pub proof fn lemma_error_line_accepted(action: Seq<char>, line: Seq<char>)
    requires
        json_document(line) is Some,
        json_field(json_document(line).unwrap(), "error"@) is Some,
    ensures
        accepted_line(action, line) == json_document(line),
{
    lemma_reply_accepted(action, json_document(line).unwrap());
}

/// What a line read from the server is for a command that waits for
/// `action`: the reply, when the line is JSON that answers it.
pub open spec fn accepted_line(action: Seq<char>, line: Seq<char>) -> Option<Json> {
    match json_document(line) {
        Some(j) => if reply_accepted(action, j) { Some(j) } else { None },
        None => None,
    }
}

/// The reply that a line holds, when it answers the command that waits for
/// `action`; `None` for a line to skip.
pub fn accept_reply(action: &str, line: &str) -> (r: Option<Json>)
    ensures
        r == accepted_line(action@, line@),
{
    match Json::parse(line) {
        Some(j) => {
            if reply_matches(action, &j) {
                Some(j)
            } else {
                None
            }
        },
        None => None,
    }
}

/// Whether a reply reports an error.
pub fn reply_is_error(reply: &Json) -> (r: bool)
    ensures
        r == json_field(*reply, "error"@) is Some,
{
    reply.has_key("error")
}

/// The name of the room that the reply to `login` places the player in.
pub open spec fn login_room_name(j: Json) -> Option<Seq<char>> {
    match json_field(j, "location"@) {
        Some(loc) => json_text(json_field(loc, "name"@)),
        None => None,
    }
}

/// The room that the reply to `login` places the player in; `None` when
/// the reply names none.
pub open spec fn login_room(j: Json) -> Option<Miestnost> {
    match login_room_name(j) {
        Some(n) => room_by_key(normalized(n)),
        None => None,
    }
}

/// The room that the reply to `login` places the player in.
pub fn room_from_login(reply: &Json) -> (r: Option<Miestnost>)
    ensures
        r == login_room(*reply),
{
    let loc = match reply.field("location") {
        Some(l) => l,
        None => {
            return None;
        },
    };
    match loc.text_field("name") {
        Some(n) => match Miestnost::from_str(n) {
            Ok(m) => Some(m),
            Err(_) => None,
        },
        None => None,
    }
}

/// The element that an entry of an `items` list names.
pub open spec fn item_of(j: Json) -> Option<Element> {
    match json_text(json_field(j, "name"@)) {
        Some(n) => element_by_key(all_elements(), normalized(n)),
        None => None,
    }
}

/// The elements that all the entries of `members` name, in order, when each names one.
pub open spec fn items_of(members: Seq<Json>) -> Option<Seq<Element>>
    decreases members.len(),
{
    if members.len() == 0 {
        Some(Seq::empty())
    } else {
        match (items_of(members.drop_last()), item_of(members.last())) {
            (Some(s), Some(e)) => Some(s.push(e)),
            _ => None,
        }
    }
}

/// Law of item lists: a list is read exactly when every entry names an
/// element, and then it has one element per entry, the one that entry names,
/// in the same order (no entry is dropped, merged or reordered).
pub proof fn lemma_items_of(members: Seq<Json>)
    ensures
        items_of(members) is Some <==> forall|i: int| 0 <= i < members.len() ==> item_of(#[trigger] members[i]) is Some,
        items_of(members) is Some ==> {
            let s = items_of(members).unwrap();
            &&& s.len() == members.len()
            &&& forall|i: int| 0 <= i < members.len() ==> item_of(#[trigger] members[i]) == Some(s[i])
        },
    decreases members.len(),
{
    if members.len() > 0 {
        let w = members.drop_last();
        let n = members.len() - 1;
        lemma_items_of(w);
        assert forall|i: int| 0 <= i < w.len() implies #[trigger] w[i] == members[i] by {}
        assert(members.last() == members[n]);
        match (items_of(w), item_of(members.last())) {
            (Some(t), Some(e)) => {
                let s = t.push(e);
                assert(items_of(members) == Some(s));
                assert forall|i: int| 0 <= i < members.len() implies item_of(#[trigger] members[i]) == Some(s[i]) by {
                    if i < n {
                        assert(item_of(w[i]) == Some(t[i]));
                    }
                }
            },
            (None, _) => {
                assert(items_of(members) is None);
                let i = choose|i: int| 0 <= i < w.len() && item_of(#[trigger] w[i]) is None;
                assert(item_of(members[i]) is None);
            },
            (Some(_), None) => {
                assert(items_of(members) is None);
                assert(item_of(members[n]) is None);
            },
        }
    }
}

/// The inventory that the reply to `examine` lists.
pub open spec fn listed_inventory(j: Json) -> Option<Seq<Element>> {
    items_of(json_members(json_field(j, "items"@)))
}

/// Law of the inventory read from `examine`: when it is read, it has one
/// element per entry of the reply's `items` array, the one that entry names,
/// in order; it is not read exactly when some entry names no element.
pub proof fn lemma_listed_inventory(j: Json)
    ensures
        ({
            let ms = json_members(json_field(j, "items"@));
            &&& listed_inventory(j) is None <==> exists|i: int| 0 <= i < ms.len() && item_of(#[trigger] ms[i]) is None
            &&& listed_inventory(j) is Some ==> {
                &&& listed_inventory(j).unwrap().len() == ms.len()
                &&& forall|i: int| 0 <= i < ms.len() ==> item_of(#[trigger] ms[i]) == Some(listed_inventory(j).unwrap()[i])
            }
        }),
{
    lemma_items_of(json_members(json_field(j, "items"@)));
}

/// The inventory that the reply to `examine` lists: the element named by
/// each entry of its `items` array, in order; `None` when an entry names no
/// element.
pub fn inventory_from_reply(reply: &Json) -> (r: Option<Inventory>)
    ensures
        match r {
            Some(inv) => listed_inventory(*reply) == Some(inv@),
            None => listed_inventory(*reply) is None,
        },
{
    let members: &Vec<Json> = match reply.field("items") {
        Some(Json::Array(v)) => v,
        _ => {
            let r = Inventory { items: Vec::new() };
            proof {
                assert(json_members(json_field(*reply, "items"@)) =~= Seq::<Json>::empty());
                assert(r@ =~= Seq::<Element>::empty());
            }
            return Some(r);
        },
    };
    let ghost ms = members@;
    let mut items: Vec<Element> = Vec::new();
    let mut i: usize = 0;
    while i < members.len()
        invariant
            ms == members@,
            ms == json_members(json_field(*reply, "items"@)),
            0 <= i <= members.len(),
            items_of(ms.subrange(0, i as int)) == Some(items@),
        decreases members.len() - i,
    {
        let m = &members[i];
        proof {
            assert(ms.subrange(0, i + 1).drop_last() =~= ms.subrange(0, i as int));
            assert(ms.subrange(0, i + 1).last() == ms[i as int]);
        }
        let e = match m.text_field("name") {
            Some(n) => match Element::from_str(n) {
                Ok(e) => e,
                Err(_) => {
                    proof {
                        lemma_items_of_none_extends(ms, i as int + 1);
                    }
                    return None;
                },
            },
            None => {
                proof {
                    lemma_items_of_none_extends(ms, i as int + 1);
                }
                return None;
            },
        };
        items.push(e);
        i = i + 1;
    }
    proof {
        assert(ms.subrange(0, ms.len() as int) =~= ms);
    }
    Some(Inventory { items })
}

proof fn lemma_items_of_none_extends(ms: Seq<Json>, k: int)
    requires
        0 < k <= ms.len(),
        items_of(ms.subrange(0, k)) is None,
    ensures
        items_of(ms) is None,
    decreases ms.len() - k,
{
    if k < ms.len() {
        assert(ms.subrange(0, k + 1).drop_last() =~= ms.subrange(0, k));
        lemma_items_of_none_extends(ms, k + 1);
    } else {
        assert(ms.subrange(0, k) =~= ms);
    }
}

/// What a reply to `craft` says of the recipe tried: `Some(true)` when its
/// error starts with "Recept pre" (no such recipe), `Some(false)` for any
/// other error, `None` when it carries no error text.
pub open spec fn unknown_recipe(j: Json) -> Option<bool> {
    match json_text(json_field(j, "error"@)) {
        Some(e) => Some(has_prefix(e, "Recept pre"@)),
        None => None,
    }
}

/// What a reply to `craft` says of the recipe tried.
pub fn unknown_recipe_reply(reply: &Json) -> (r: Option<bool>)
    ensures
        r == unknown_recipe(*reply),
{
    match reply.text_field("error") {
        Some(e) => Some(starts_with_text(e, "Recept pre")),
        None => None,
    }
}

/// The arguments of `use` on the storage terminal: `elem`, the verb, the
/// element's name.
pub open spec fn storage_args(verb: Seq<char>, item: Element) -> Seq<Seq<char>> {
    seq!["elem"@, verb, element_name(item)]
}

/// The arguments of `use` on the storage terminal.
pub fn use_args(verb: &str, item: Element) -> (r: Vec<String>)
    ensures
        texts(r@) == storage_args(verb@, item),
{
    let r = vec!["elem".to_string(), verb.to_string(), item.to_string()];
    proof {
        assert(texts(r@) =~= storage_args(verb@, item));
    }
    r
}

/// The argument of `go`: the room's name.
pub fn go_args(room: Miestnost) -> (r: Vec<String>)
    ensures
        texts(r@) == seq![room_name(room)],
{
    let r = vec![room.to_string()];
    proof {
        assert(texts(r@) =~= seq![room_name(room)]);
    }
    r
}

/// The names of some elements, in order.
pub open spec fn element_names(es: Seq<Element>) -> Seq<Seq<char>> {
    es.map_values(|e: Element| element_name(e))
}

/// The arguments of `craft`: the ingredients' names, in order.
pub fn craft_args(ingredients: &Vec<Element>) -> (r: Vec<String>)
    ensures
        texts(r@) == element_names(ingredients@),
{
    let mut r: Vec<String> = Vec::new();
    let mut i: usize = 0;
    while i < ingredients.len()
        invariant
            0 <= i <= ingredients.len(),
            r@.len() == i,
            texts(r@) == element_names(ingredients@.subrange(0, i as int)),
        decreases ingredients.len() - i,
    {
        let name = ingredients[i].to_string();
        let ghost before = r@;
        r.push(name);
        proof {
            assert(r@ == before.push(name));
            assert forall|j: int| 0 <= j < r@.len() implies texts(r@)[j] == element_names(ingredients@.subrange(0, i + 1))[j] by {
                if j < i {
                    assert(texts(before)[j] == element_names(ingredients@.subrange(0, i as int))[j]);
                    assert(ingredients@.subrange(0, i as int)[j] == ingredients@.subrange(0, i + 1)[j]);
                } else {
                    assert(texts(r@)[j] == name@);
                    assert(ingredients@.subrange(0, i + 1)[j] == ingredients@[i as int]);
                }
            }
            assert(texts(r@) =~= element_names(ingredients@.subrange(0, i + 1)));
        }
        i = i + 1;
    }
    proof {
        assert(ingredients@.subrange(0, i as int) =~= ingredients@);
    }
    r
}

} // verus!

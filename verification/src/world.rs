use vstd::prelude::*;
use crate::text::{normalize, normalized, same_text, ascii_lowercase, is_plain_name, lemma_plain_name_key};

verus! {

/// The rooms of the station.
#[derive(Copy, Clone, Debug, Hash, PartialEq, Eq, Structural)]
pub enum Miestnost {
    Hub,
    Hangar,
    Raketa,
    Avecko,
    Labak,
    Vypoctovka,
    Velin,
    Datacentrum,
    Konstrukcia,
    Dielna,
    Sklad,
}

/// Number of rooms.
pub const ROOM_COUNT: usize = 11;

/// The doors of each room, in the order in which they are tried.
pub open spec fn neighbors(m: Miestnost) -> Seq<Miestnost> {
    match m {
        Miestnost::Hub => seq![Miestnost::Vypoctovka, Miestnost::Hangar, Miestnost::Avecko, Miestnost::Konstrukcia],
        Miestnost::Hangar => seq![Miestnost::Hub, Miestnost::Raketa],
        Miestnost::Raketa => seq![Miestnost::Hangar],
        Miestnost::Avecko => seq![Miestnost::Hub, Miestnost::Labak],
        Miestnost::Labak => seq![Miestnost::Avecko],
        Miestnost::Vypoctovka => seq![Miestnost::Hub, Miestnost::Datacentrum, Miestnost::Velin],
        Miestnost::Velin => seq![Miestnost::Vypoctovka],
        Miestnost::Datacentrum => seq![Miestnost::Vypoctovka],
        Miestnost::Konstrukcia => seq![Miestnost::Hub, Miestnost::Dielna, Miestnost::Sklad],
        Miestnost::Dielna => seq![Miestnost::Konstrukcia],
        Miestnost::Sklad => seq![Miestnost::Konstrukcia],
    }
}

/// Law of the station map: the doors of every room, in the order in which
/// they are tried.
pub proof fn lemma_station_map()
    ensures
        neighbors(Miestnost::Hub) == seq![Miestnost::Vypoctovka, Miestnost::Hangar, Miestnost::Avecko, Miestnost::Konstrukcia],
        neighbors(Miestnost::Hangar) == seq![Miestnost::Hub, Miestnost::Raketa],
        neighbors(Miestnost::Raketa) == seq![Miestnost::Hangar],
        neighbors(Miestnost::Avecko) == seq![Miestnost::Hub, Miestnost::Labak],
        neighbors(Miestnost::Labak) == seq![Miestnost::Avecko],
        neighbors(Miestnost::Vypoctovka) == seq![Miestnost::Hub, Miestnost::Datacentrum, Miestnost::Velin],
        neighbors(Miestnost::Velin) == seq![Miestnost::Vypoctovka],
        neighbors(Miestnost::Datacentrum) == seq![Miestnost::Vypoctovka],
        neighbors(Miestnost::Konstrukcia) == seq![Miestnost::Hub, Miestnost::Dielna, Miestnost::Sklad],
        neighbors(Miestnost::Dielna) == seq![Miestnost::Konstrukcia],
        neighbors(Miestnost::Sklad) == seq![Miestnost::Konstrukcia],
{
}

/// Position of a room in declaration order.
pub open spec fn room_index(m: Miestnost) -> int {
    match m {
        Miestnost::Hub => 0,
        Miestnost::Hangar => 1,
        Miestnost::Raketa => 2,
        Miestnost::Avecko => 3,
        Miestnost::Labak => 4,
        Miestnost::Vypoctovka => 5,
        Miestnost::Velin => 6,
        Miestnost::Datacentrum => 7,
        Miestnost::Konstrukcia => 8,
        Miestnost::Dielna => 9,
        Miestnost::Sklad => 10,
    }
}

impl Miestnost {
    /// The rooms that a door of `self` leads to.
    pub fn get_neighbors(self) -> (r: Vec<Miestnost>)
        ensures
            r@ == neighbors(self),
    {
        let r = match self {
            Miestnost::Hub => vec![Miestnost::Vypoctovka, Miestnost::Hangar, Miestnost::Avecko, Miestnost::Konstrukcia],
            Miestnost::Hangar => vec![Miestnost::Hub, Miestnost::Raketa],
            Miestnost::Raketa => vec![Miestnost::Hangar],
            Miestnost::Avecko => vec![Miestnost::Hub, Miestnost::Labak],
            Miestnost::Labak => vec![Miestnost::Avecko],
            Miestnost::Vypoctovka => vec![Miestnost::Hub, Miestnost::Datacentrum, Miestnost::Velin],
            Miestnost::Velin => vec![Miestnost::Vypoctovka],
            Miestnost::Datacentrum => vec![Miestnost::Vypoctovka],
            Miestnost::Konstrukcia => vec![Miestnost::Hub, Miestnost::Dielna, Miestnost::Sklad],
            Miestnost::Dielna => vec![Miestnost::Konstrukcia],
            Miestnost::Sklad => vec![Miestnost::Konstrukcia],
        };
        proof {
            assert(r@ =~= neighbors(self));
        }
        r
    }

    /// Position of the room in declaration order.
    pub fn index(self) -> (i: usize)
        ensures
            i as int == room_index(self),
            i < ROOM_COUNT,
    {
        match self {
            Miestnost::Hub => 0,
            Miestnost::Hangar => 1,
            Miestnost::Raketa => 2,
            Miestnost::Avecko => 3,
            Miestnost::Labak => 4,
            Miestnost::Vypoctovka => 5,
            Miestnost::Velin => 6,
            Miestnost::Datacentrum => 7,
            Miestnost::Konstrukcia => 8,
            Miestnost::Dielna => 9,
            Miestnost::Sklad => 10,
        }
    }
}


/// Every room, in declaration order.
pub open spec fn all_rooms() -> Seq<Miestnost> {
    seq![
        Miestnost::Hub, Miestnost::Hangar, Miestnost::Raketa, Miestnost::Avecko,
        Miestnost::Labak, Miestnost::Vypoctovka, Miestnost::Velin, Miestnost::Datacentrum,
        Miestnost::Konstrukcia, Miestnost::Dielna, Miestnost::Sklad,
    ]
}

/// How many rooms of `s` are not in `visited`.
pub open spec fn unvisited_count(s: Seq<Miestnost>, visited: Set<Miestnost>) -> nat
    decreases s.len(),
{
    if s.len() == 0 {
        0
    } else {
        (if visited.contains(s[0]) { 0nat } else { 1nat }) + unvisited_count(s.drop_first(), visited)
    }
}

pub proof fn lemma_all_rooms_contains(m: Miestnost)
    ensures
        all_rooms().contains(m),
{
    assert(all_rooms()[room_index(m)] == m);
}

pub proof fn lemma_unvisited_monotone(s: Seq<Miestnost>, a: Set<Miestnost>, b: Set<Miestnost>, x: Miestnost)
    requires
        a.subset_of(b),
    ensures
        unvisited_count(s, b) <= unvisited_count(s, a),
        s.contains(x) && !a.contains(x) && b.contains(x) ==> unvisited_count(s, b) < unvisited_count(s, a),
    decreases s.len(),
{
    if s.len() > 0 {
        lemma_unvisited_monotone(s.drop_first(), a, b, x);
        if s.contains(x) && s[0] != x {
            let k = choose|k: int| 0 <= k < s.len() && s[k] == x;
            assert(s.drop_first()[k - 1] == x);
        }
    }
}

/// Visiting a room that was not visited leaves fewer rooms unvisited.
pub proof fn lemma_visit_decreases(a: Set<Miestnost>, b: Set<Miestnost>, x: Miestnost)
    requires
        a.subset_of(b),
        !a.contains(x),
        b.contains(x),
    ensures
        unvisited_count(all_rooms(), b) < unvisited_count(all_rooms(), a),
{
    lemma_all_rooms_contains(x);
    lemma_unvisited_monotone(all_rooms(), a, b, x);
}

/// The depth-first search behind `pathfind`: try the rooms of `ns` in order,
/// skipping those already in `went`; mark each new room, and either it is the
/// target or the search goes on from its doors. The result tells whether the
/// target was reached, the rooms marked by then, and the rooms walked through
/// from the first of `ns` to the target (empty when it was not reached).
pub open spec fn dfs(ns: Seq<Miestnost>, target: Miestnost, went: Set<Miestnost>) -> (bool, Set<Miestnost>, Seq<Miestnost>)
    decreases unvisited_count(all_rooms(), went), ns.len(),
{
    if ns.len() == 0 {
        (false, went, Seq::empty())
    } else {
        let n = ns[0];
        if went.contains(n) {
            dfs(ns.drop_first(), target, went)
        } else {
            let w2 = went.insert(n);
            if n == target {
                (true, w2, seq![n])
            } else {
                proof {
                    lemma_visit_decreases(went, w2, n);
                }
                let inner = dfs(neighbors(n), target, w2);
                if inner.0 {
                    (true, inner.1, seq![n] + inner.2)
                } else {
                    proof {
                        lemma_visit_decreases(went, inner.1.union(w2), n);
                    }
                    dfs(ns.drop_first(), target, inner.1.union(w2))
                }
            }
        }
    }
}

/// The route that `pathfind` returns from `from` to `to`.
pub open spec fn route(from: Miestnost, to: Miestnost) -> Seq<Miestnost> {
    if from == to {
        Seq::empty()
    } else {
        dfs(neighbors(from), to, Set::empty()).2
    }
}


/// Each room of `p` is behind a door of the one before it, the first behind a
/// door of `from`.
pub open spec fn is_walk(from: Miestnost, p: Seq<Miestnost>) -> bool {
    &&& p.len() > 0 ==> neighbors(from).contains(p[0])
    &&& forall|i: int| 0 <= i < p.len() - 1 ==> #[trigger] neighbors(p[i]).contains(p[i + 1])
}

/// Every door of a room of `s` leads into `s`, at least for the rooms of `s`
/// outside `except`.
pub open spec fn closed_outside(s: Set<Miestnost>, except: Set<Miestnost>) -> bool {
    forall|y: Miestnost, z: Miestnost|
        s.contains(y) && !except.contains(y) && #[trigger] neighbors(y).contains(z) ==> #[trigger] s.contains(z)
}

/// What the search leaves behind: the marks only grow; a route is found
/// exactly when one is reported, and it is a walk of fresh rooms from the list
/// to the target; when none is found, every room of the list is marked and
/// every newly marked room has all its doors marked.
pub proof fn lemma_dfs_facts(ns: Seq<Miestnost>, target: Miestnost, went: Set<Miestnost>)
    ensures
        ({
            let r = dfs(ns, target, went);
            &&& went.subset_of(r.1)
            &&& !r.0 ==> r.2 == Seq::<Miestnost>::empty()
            &&& (!r.0 && !went.contains(target)) ==> !r.1.contains(target)
            &&& r.0 ==> {
                &&& r.2.len() > 0
                &&& r.2.last() == target
                &&& ns.contains(r.2[0])
                &&& forall|i: int| 0 <= i < r.2.len() - 1 ==> #[trigger] neighbors(r.2[i]).contains(r.2[i + 1])
                &&& forall|i: int| 0 <= i < r.2.len() ==> !went.contains(#[trigger] r.2[i])
                &&& forall|i: int| 0 <= i < r.2.len() ==> r.1.contains(#[trigger] r.2[i])
                &&& r.2.no_duplicates()
            }
            &&& !r.0 ==> {
                &&& forall|x: Miestnost| #[trigger] ns.contains(x) ==> r.1.contains(x)
                &&& closed_outside(r.1, went)
            }
        }),
    decreases unvisited_count(all_rooms(), went), ns.len(),
{
    if ns.len() == 0 {
        assert(closed_outside(went, went));
    } else {
        let n = ns[0];
        let rest = ns.drop_first();
        assert forall|x: Miestnost| #[trigger] ns.contains(x) implies x == n || rest.contains(x) by {
            if x != n {
                let k = choose|k: int| 0 <= k < ns.len() && ns[k] == x;
                assert(rest[k - 1] == x);
            }
        }
        if went.contains(n) {
            lemma_dfs_facts(rest, target, went);
            let r = dfs(ns, target, went);
            if r.0 {
                let k = choose|k: int| 0 <= k < rest.len() && rest[k] == r.2[0];
                assert(ns[k + 1] == r.2[0]);
            }
        } else {
            let w2 = went.insert(n);
            if n == target {
                let r = dfs(ns, target, went);
                assert(ns[0] == r.2[0]);
            } else {
                lemma_visit_decreases(went, w2, n);
                lemma_dfs_facts(neighbors(n), target, w2);
                let inner = dfs(neighbors(n), target, w2);
                if inner.0 {
                    let r = dfs(ns, target, went);
                    assert(r.2 == seq![n] + inner.2);
                    assert(ns[0] == r.2[0]);
                    assert forall|i: int| 0 <= i < r.2.len() - 1 implies #[trigger] neighbors(r.2[i]).contains(r.2[i + 1]) by {
                        if i > 0 {
                            assert(r.2[i] == inner.2[i - 1]);
                            assert(r.2[i + 1] == inner.2[i]);
                            assert(neighbors(inner.2[i - 1]).contains(inner.2[(i - 1) + 1]));
                        } else {
                            assert(r.2[1] == inner.2[0]);
                            assert(neighbors(n).contains(inner.2[0]));
                        }
                    }
                    assert forall|i: int| 0 <= i < r.2.len() implies !went.contains(#[trigger] r.2[i]) && r.1.contains(r.2[i]) by {
                        if i > 0 {
                            assert(r.2[i] == inner.2[i - 1]);
                        }
                    }
                    assert forall|i: int, j: int| 0 <= i < r.2.len() && 0 <= j < r.2.len() && i != j implies r.2[i] != r.2[j] by {
                        if i > 0 && j > 0 {
                            assert(r.2[i] == inner.2[i - 1]);
                            assert(r.2[j] == inner.2[j - 1]);
                        } else if i == 0 {
                            assert(r.2[j] == inner.2[j - 1]);
                            assert(!w2.contains(inner.2[j - 1]));
                        } else {
                            assert(r.2[i] == inner.2[i - 1]);
                            assert(!w2.contains(inner.2[i - 1]));
                        }
                    }
                } else {
                    let u = inner.1.union(w2);
                    assert(u =~= inner.1);
                    lemma_visit_decreases(went, u, n);
                    lemma_dfs_facts(rest, target, u);
                    let r = dfs(ns, target, went);
                    assert(r == dfs(rest, target, u));
                    if r.0 {
                        let k = choose|k: int| 0 <= k < rest.len() && rest[k] == r.2[0];
                        assert(ns[k + 1] == r.2[0]);
                    } else {
                        assert forall|y: Miestnost, z: Miestnost|
                            r.1.contains(y) && !went.contains(y) && #[trigger] neighbors(y).contains(z) implies #[trigger] r.1.contains(z) by {
                            if !u.contains(y) {
                            } else if y == n {
                                assert(inner.1.contains(z));
                            } else {
                                assert(!w2.contains(y));
                                assert(inner.1.contains(z));
                            }
                        }
                    }
                }
            }
        }
    }
}

proof fn lemma_door_closed(s: Set<Miestnost>, a: Miestnost, i: int)
    requires
        closed_outside(s, Set::empty()),
        s.contains(a),
        0 <= i < neighbors(a).len(),
    ensures
        s.contains(neighbors(a)[i]),
{
    assert(neighbors(a).contains(neighbors(a)[i]));
}

/// The station is connected: a set of rooms that holds one room and the
/// rooms behind every door of its rooms holds every room.
pub proof fn lemma_closed_holds_all(s: Set<Miestnost>, x: Miestnost, y: Miestnost)
    requires
        closed_outside(s, Set::empty()),
        s.contains(x),
    ensures
        s.contains(y),
{
    // every room reaches the hub
    match x {
        Miestnost::Hub => {},
        Miestnost::Hangar => { lemma_door_closed(s, x, 0); },
        Miestnost::Raketa => { lemma_door_closed(s, x, 0); lemma_door_closed(s, Miestnost::Hangar, 0); },
        Miestnost::Avecko => { lemma_door_closed(s, x, 0); },
        Miestnost::Labak => { lemma_door_closed(s, x, 0); lemma_door_closed(s, Miestnost::Avecko, 0); },
        Miestnost::Vypoctovka => { lemma_door_closed(s, x, 0); },
        Miestnost::Velin => { lemma_door_closed(s, x, 0); lemma_door_closed(s, Miestnost::Vypoctovka, 0); },
        Miestnost::Datacentrum => { lemma_door_closed(s, x, 0); lemma_door_closed(s, Miestnost::Vypoctovka, 0); },
        Miestnost::Konstrukcia => { lemma_door_closed(s, x, 0); },
        Miestnost::Dielna => { lemma_door_closed(s, x, 0); lemma_door_closed(s, Miestnost::Konstrukcia, 0); },
        Miestnost::Sklad => { lemma_door_closed(s, x, 0); lemma_door_closed(s, Miestnost::Konstrukcia, 0); },
    }
    assert(s.contains(Miestnost::Hub));
    // the hub reaches every room
    lemma_door_closed(s, Miestnost::Hub, 0);
    lemma_door_closed(s, Miestnost::Hub, 1);
    lemma_door_closed(s, Miestnost::Hub, 2);
    lemma_door_closed(s, Miestnost::Hub, 3);
    lemma_door_closed(s, Miestnost::Hangar, 1);
    lemma_door_closed(s, Miestnost::Avecko, 1);
    lemma_door_closed(s, Miestnost::Vypoctovka, 1);
    lemma_door_closed(s, Miestnost::Vypoctovka, 2);
    lemma_door_closed(s, Miestnost::Konstrukcia, 1);
    lemma_door_closed(s, Miestnost::Konstrukcia, 2);
}

/// Law of `pathfind`: the route from a room to itself is empty; between two
/// different rooms it is a walk through doors that ends at the destination and
/// never enters a room twice.
pub proof fn lemma_route_reaches(from: Miestnost, to: Miestnost)
    ensures
        from == to ==> route(from, to).len() == 0,
        from != to ==> {
            let p = route(from, to);
            &&& p.len() > 0
            &&& p.last() == to
            &&& is_walk(from, p)
            &&& p.no_duplicates()
        },
{
    if from != to {
        let r = dfs(neighbors(from), to, Set::empty());
        lemma_dfs_facts(neighbors(from), to, Set::empty());
        if !r.0 {
            assert(neighbors(from).contains(neighbors(from)[0]));
            assert(closed_outside(r.1, Set::empty()));
            lemma_closed_holds_all(r.1, neighbors(from)[0], to);
        }
    }
}


/// Law of `pathfind`: between two different rooms the route goes out through
/// the first door of the room it starts from (the search that starts behind
/// that door reaches every room, the starting one included).
pub proof fn lemma_route_first_door(from: Miestnost, to: Miestnost)
    requires
        from != to,
    ensures
        route(from, to).len() > 0,
        route(from, to)[0] == neighbors(from)[0],
{
    lemma_route_reaches(from, to);
    let n0 = neighbors(from)[0];
    if n0 != to {
        let w = Set::<Miestnost>::empty().insert(n0);
        let inner = dfs(neighbors(n0), to, w);
        lemma_dfs_facts(neighbors(n0), to, w);
        if !inner.0 {
            assert(closed_outside(inner.1, Set::empty())) by {
                assert forall|y: Miestnost, z: Miestnost|
                    inner.1.contains(y) && !Set::<Miestnost>::empty().contains(y) && #[trigger] neighbors(y).contains(z)
                    implies #[trigger] inner.1.contains(z) by {
                    if y == n0 {
                        assert(neighbors(n0).contains(z));
                    } else {
                        assert(!w.contains(y));
                    }
                }
            }
            assert(w.contains(n0));
            lemma_closed_holds_all(inner.1, n0, to);
        }
        assert(dfs(neighbors(from), to, Set::empty()) == (true, inner.1, seq![n0] + inner.2));
    }
}

/// Law of `pathfind`: a route passes through no room that has a single door;
/// such a room is on a route only as its destination (no detour into a
/// dead end and back).
pub proof fn lemma_route_avoids_dead_ends(from: Miestnost, to: Miestnost)
    ensures
        forall|i: int| 0 <= i < route(from, to).len() - 1 ==> neighbors(#[trigger] route(from, to)[i]).len() > 1,
{
    lemma_route_reaches(from, to);
    if from != to {
        lemma_route_first_door(from, to);
        let p = route(from, to);
        assert forall|i: int| 0 <= i < p.len() - 1 implies neighbors(#[trigger] p[i]).len() > 1 by {
            let d = p[i];
            if neighbors(d).len() <= 1 {
                assert(neighbors(d).contains(p[i + 1]));
                let u = neighbors(d)[0];
                assert(p[i + 1] == u);
                if i == 0 {
                    assert(neighbors(from).contains(d));
                    lemma_doors_two_way(from, d);
                    assert(from == u);
                    assert(neighbors(from)[0] == d);
                    assert(neighbors(neighbors(from)[0]).len() > 1);
                } else {
                    let j = i - 1;
                    assert(is_walk(from, p));
                    assert(neighbors(p[j]).contains(p[j + 1]));
                    assert(p[j + 1] == d);
                    lemma_doors_two_way(p[i - 1], d);
                    assert(p[i - 1] == u);
                    assert(p[i - 1] == p[i + 1]);
                }
            }
        }
    }
}

/// A walk that never enters a room twice has at most as many steps as there
/// are rooms.
pub proof fn lemma_simple_walk_short(p: Seq<Miestnost>)
    requires
        p.no_duplicates(),
    ensures
        p.len() <= ROOM_COUNT,
{
    let all = all_rooms();
    assert(all.no_duplicates()) by {
        assert forall|i: int, j: int| 0 <= i < all.len() && 0 <= j < all.len() && i != j implies all[i] != all[j] by {
            lemma_room_index_injective(all[i], all[j]);
            assert(room_index(all[i]) == i);
            assert(room_index(all[j]) == j);
        }
    }
    p.unique_seq_to_set();
    all.unique_seq_to_set();
    assert forall|x: Miestnost| p.to_set().contains(x) implies all.to_set().contains(x) by {
        lemma_all_rooms_contains(x);
    }
    vstd::set_lib::lemma_len_subset(p.to_set(), all.to_set());
}

/// How many door entries the rooms of `s` have, all told.
pub open spec fn door_count(s: Seq<Miestnost>) -> nat
    decreases s.len(),
{
    if s.len() == 0 { 0 } else { neighbors(s[0]).len() + door_count(s.drop_first()) }
}

/// Every door can be walked both ways.
pub proof fn lemma_doors_two_way(a: Miestnost, b: Miestnost)
    ensures
        neighbors(a).contains(b) ==> neighbors(b).contains(a),
{
    if neighbors(a).contains(b) {
        let i = choose|i: int| 0 <= i < neighbors(a).len() && neighbors(a)[i] == b;
        assert(neighbors(b).contains(neighbors(b)[0]));
        if neighbors(b).len() > 1 {
            assert(neighbors(b).contains(neighbors(b)[1]));
        }
        if neighbors(b).len() > 2 {
            assert(neighbors(b).contains(neighbors(b)[2]));
        }
        if neighbors(b).len() > 3 {
            assert(neighbors(b).contains(neighbors(b)[3]));
        }
    }
}

/// Law of the station's map: every door is two-way, there are 20 door
/// entries (10 doors), and every room can be reached from the hub through
/// doors. A connected map of 11 rooms with 10 doors is a tree: between two
/// rooms there is exactly one way that does not turn back.
pub proof fn lemma_rooms_form_tree()
    ensures
        forall|a: Miestnost, b: Miestnost| #[trigger] neighbors(a).contains(b) ==> neighbors(b).contains(a),
        door_count(all_rooms()) == 20,
        forall|r: Miestnost| r != Miestnost::Hub ==> {
            let p = #[trigger] route(Miestnost::Hub, r);
            &&& p.len() > 0
            &&& p.last() == r
            &&& is_walk(Miestnost::Hub, p)
        },
{
    assert forall|a: Miestnost, b: Miestnost| #[trigger] neighbors(a).contains(b) implies neighbors(b).contains(a) by {
        lemma_doors_two_way(a, b);
    }
    reveal_with_fuel(door_count, 12);
    assert forall|r: Miestnost| r != Miestnost::Hub implies {
        let p = #[trigger] route(Miestnost::Hub, r);
        &&& p.len() > 0
        &&& p.last() == r
        &&& is_walk(Miestnost::Hub, p)
    } by {
        lemma_route_reaches(Miestnost::Hub, r);
    }
}

/// The rooms marked in a table indexed by `room_index`.
pub open spec fn marked(w: Seq<bool>) -> Set<Miestnost> {
    Set::new(|m: Miestnost| w[room_index(m)])
}

pub proof fn lemma_room_index_injective(a: Miestnost, b: Miestnost)
    ensures
        room_index(a) == room_index(b) ==> a == b,
{
}

proof fn lemma_mark(w: Seq<bool>, n: Miestnost)
    requires
        w.len() == ROOM_COUNT,
    ensures
        marked(w.update(room_index(n), true)) == marked(w).insert(n),
{
    assert forall|x: Miestnost| #[trigger] marked(w.update(room_index(n), true)).contains(x) == marked(w).insert(n).contains(x) by {
        lemma_room_index_injective(x, n);
    }
    assert(marked(w.update(room_index(n), true)) =~= marked(w).insert(n));
}

/// Depth-first search from the doors of `room`, marking rooms in `went` and
/// keeping the rooms walked through on `path`.
fn search(room: Miestnost, target: Miestnost, went: &mut Vec<bool>, path: &mut Vec<Miestnost>) -> (found: bool)
    requires
        old(went)@.len() == ROOM_COUNT,
    ensures
        final(went)@.len() == ROOM_COUNT,
        ({
            let r = dfs(neighbors(room), target, marked(old(went)@));
            &&& found == r.0
            &&& marked(final(went)@) == r.1
            &&& final(path)@ == old(path)@ + r.2
        }),
    decreases unvisited_count(all_rooms(), marked(old(went)@)),
{
    let ns = room.get_neighbors();
    let ghost ns0 = ns@;
    let ghost w0 = marked(went@);
    let ghost p0 = path@;
    let mut i: usize = 0;
    proof {
        assert(ns0.skip(0) =~= ns0);
    }
    while i < ns.len()
        invariant
            ns@ == ns0,
            ns0 == neighbors(room),
            w0 == marked(old(went)@),
            p0 == old(path)@,
            0 <= i <= ns.len(),
            went@.len() == ROOM_COUNT,
            path@ == p0,
            w0.subset_of(marked(went@)),
            dfs(ns0, target, w0) == dfs(ns0.skip(i as int), target, marked(went@)),
        decreases ns.len() - i,
    {
        let n = ns[i];
        let ghost cur = marked(went@);
        proof {
            assert(ns0.skip(i as int)[0] == n);
            assert(ns0.skip(i as int).drop_first() =~= ns0.skip(i + 1));
        }
        let k = n.index();
        if went[k] {
            i = i + 1;
        } else {
            proof {
                lemma_mark(went@, n);
            }
            went.set(k, true);
            path.push(n);
            proof {
                assert(!cur.contains(n));
                assert(marked(went@) == cur.insert(n));
                assert(dfs(ns0.skip(i as int), target, cur) == (if n == target {
                    (true, cur.insert(n), seq![n])
                } else {
                    let inner = dfs(neighbors(n), target, cur.insert(n));
                    if inner.0 {
                        (true, inner.1, seq![n] + inner.2)
                    } else {
                        dfs(ns0.skip(i + 1), target, inner.1.union(cur.insert(n)))
                    }
                }));
            }
            if n == target {
                proof {
                    assert(path@ =~= p0 + seq![n]);
                }
                return true;
            }
            proof {
                assert(w0.subset_of(marked(went@)));
                assert(!w0.contains(n));
                lemma_visit_decreases(w0, marked(went@), n);
                assert(unvisited_count(all_rooms(), marked(went@)) < unvisited_count(all_rooms(), w0));
            }
            let ghost before_call = path@;
            let deeper = search(n, target, went, path);
            proof {
                lemma_dfs_facts(neighbors(n), target, cur.insert(n));
            }
            if deeper {
                proof {
                    assert(path@ =~= p0 + (seq![n] + dfs(neighbors(n), target, cur.insert(n)).2));
                }
                return true;
            }
            proof {
                let inner = dfs(neighbors(n), target, cur.insert(n));
                assert(inner.1.union(cur.insert(n)) =~= inner.1);
                assert(path@ =~= before_call);
            }
            path.pop();
            proof {
                assert(path@ =~= p0);
            }
            i = i + 1;
        }
    }
    proof {
        assert(ns0.skip(i as int) =~= Seq::<Miestnost>::empty());
        assert(path@ =~= p0 + Seq::<Miestnost>::empty());
    }
    false
}

impl Miestnost {
    /// The rooms to walk through, in order, to get from `self` to `other`;
    /// empty when they are the same room.
    pub fn pathfind(self, other: Miestnost) -> (path: Vec<Miestnost>)
        ensures
            path@ == route(self, other),
            self == other ==> path@.len() == 0,
            self != other ==> {
                &&& path@.len() > 0
                &&& path@.last() == other
                &&& is_walk(self, path@)
                &&& path@.no_duplicates()
            },
            path@.len() <= ROOM_COUNT,
    {
        let mut path: Vec<Miestnost> = Vec::new();
        if self == other {
            return path;
        }
        let mut went: Vec<bool> = vec![false, false, false, false, false, false, false, false, false, false, false];
        proof {
            assert(marked(went@) =~= Set::<Miestnost>::empty());
        }
        let _found = search(self, other, &mut went, &mut path);
        proof {
            lemma_route_reaches(self, other);
            assert(path@ =~= route(self, other));
            lemma_simple_walk_short(path@);
        }
        path
    }
}


/// The name under which the game knows a room.
pub open spec fn room_name(m: Miestnost) -> Seq<char> {
    match m {
        Miestnost::Hub => "Hub"@,
        Miestnost::Hangar => "Hangar"@,
        Miestnost::Raketa => "Raketa"@,
        Miestnost::Avecko => "Avecko"@,
        Miestnost::Labak => "Labak"@,
        Miestnost::Vypoctovka => "Vypoctovka"@,
        Miestnost::Velin => "Velin"@,
        Miestnost::Datacentrum => "Datacentrum"@,
        Miestnost::Konstrukcia => "Konstrukcia"@,
        Miestnost::Dielna => "Dielna"@,
        Miestnost::Sklad => "Sklad"@,
    }
}

/// The room that a lookup key names.
pub open spec fn room_by_key(key: Seq<char>) -> Option<Miestnost> {
    if key == "hub"@ {
        Some(Miestnost::Hub)
    } else if key == "hangar"@ {
        Some(Miestnost::Hangar)
    } else if key == "raketa"@ {
        Some(Miestnost::Raketa)
    } else if key == "avecko"@ {
        Some(Miestnost::Avecko)
    } else if key == "labak"@ {
        Some(Miestnost::Labak)
    } else if key == "vypoctovka"@ {
        Some(Miestnost::Vypoctovka)
    } else if key == "velin"@ {
        Some(Miestnost::Velin)
    } else if key == "datacentrum"@ {
        Some(Miestnost::Datacentrum)
    } else if key == "konstrukcia"@ {
        Some(Miestnost::Konstrukcia)
    } else if key == "dielna"@ {
        Some(Miestnost::Dielna)
    } else if key == "sklad"@ {
        Some(Miestnost::Sklad)
    } else {
        None
    }
}

impl Miestnost {
    /// The name under which the game knows the room.
    pub fn to_string(&self) -> (s: String)
        ensures
            s@ == room_name(*self),
    {
        let t: &str = match *self {
            Miestnost::Hub => "Hub",
            Miestnost::Hangar => "Hangar",
            Miestnost::Raketa => "Raketa",
            Miestnost::Avecko => "Avecko",
            Miestnost::Labak => "Labak",
            Miestnost::Vypoctovka => "Vypoctovka",
            Miestnost::Velin => "Velin",
            Miestnost::Datacentrum => "Datacentrum",
            Miestnost::Konstrukcia => "Konstrukcia",
            Miestnost::Dielna => "Dielna",
            Miestnost::Sklad => "Sklad",
        };
        proof {
            reveal_strlit("Hub");
            reveal_strlit("Hangar");
            reveal_strlit("Raketa");
            reveal_strlit("Avecko");
            reveal_strlit("Labak");
            reveal_strlit("Vypoctovka");
            reveal_strlit("Velin");
            reveal_strlit("Datacentrum");
            reveal_strlit("Konstrukcia");
            reveal_strlit("Dielna");
            reveal_strlit("Sklad");
        }
        t.to_string()
    }

    /// The room that a lookup key (trimmed, lowercase, ASCII) names.
    pub fn from_normalized(key: &str) -> (r: Option<Miestnost>)
        ensures
            r == room_by_key(key@),
    {
        if same_text(key, "hub") {
            return Some(Miestnost::Hub);
        }
        if same_text(key, "hangar") {
            return Some(Miestnost::Hangar);
        }
        if same_text(key, "raketa") {
            return Some(Miestnost::Raketa);
        }
        if same_text(key, "avecko") {
            return Some(Miestnost::Avecko);
        }
        if same_text(key, "labak") {
            return Some(Miestnost::Labak);
        }
        if same_text(key, "vypoctovka") {
            return Some(Miestnost::Vypoctovka);
        }
        if same_text(key, "velin") {
            return Some(Miestnost::Velin);
        }
        if same_text(key, "datacentrum") {
            return Some(Miestnost::Datacentrum);
        }
        if same_text(key, "konstrukcia") {
            return Some(Miestnost::Konstrukcia);
        }
        if same_text(key, "dielna") {
            return Some(Miestnost::Dielna);
        }
        if same_text(key, "sklad") {
            return Some(Miestnost::Sklad);
        }
        None
    }

    /// The room that a text names, ignoring surrounding whitespace, case and
    /// accents; `Err(())` when it names none.
    pub fn from_str(s: &str) -> (r: Result<Miestnost, ()>)
        ensures
            r == (match room_by_key(normalized(s@)) {
                Some(m) => Ok(m),
                None => Err(()),
            }),
    {
        let key = normalize(s);
        match Miestnost::from_normalized(key.as_str()) {
            Some(m) => Ok(m),
            None => Err(()),
        }
    }
}


/// Law of room names: the name of a room is looked up as that room, so
/// `Miestnost::from_str(&m.to_string()) == Ok(m)`.
pub proof fn lemma_room_name_round_trip(m: Miestnost)
    ensures
        room_by_key(normalized(room_name(m))) == Some(m),
{
    reveal_strlit("hub");
    reveal_strlit("hangar");
    reveal_strlit("raketa");
    reveal_strlit("avecko");
    reveal_strlit("labak");
    reveal_strlit("vypoctovka");
    reveal_strlit("velin");
    reveal_strlit("datacentrum");
    reveal_strlit("konstrukcia");
    reveal_strlit("dielna");
    reveal_strlit("sklad");
    match m {
        Miestnost::Hub => {
            reveal_strlit("Hub");
            lemma_plain_name_key(room_name(m));
            assert(ascii_lowercase(room_name(m)) =~= "hub"@);
            assert(room_by_key(normalized(room_name(m))) == Some(Miestnost::Hub));
        },
        Miestnost::Hangar => {
            reveal_strlit("Hangar");
            lemma_plain_name_key(room_name(m));
            assert(ascii_lowercase(room_name(m)) =~= "hangar"@);
            assert(room_by_key(normalized(room_name(m))) == Some(Miestnost::Hangar));
        },
        Miestnost::Raketa => {
            reveal_strlit("Raketa");
            lemma_plain_name_key(room_name(m));
            assert(ascii_lowercase(room_name(m)) =~= "raketa"@);
            assert("raketa"@[0] != "hangar"@[0]);
            assert(room_by_key(normalized(room_name(m))) == Some(Miestnost::Raketa));
        },
        Miestnost::Avecko => {
            reveal_strlit("Avecko");
            lemma_plain_name_key(room_name(m));
            assert(ascii_lowercase(room_name(m)) =~= "avecko"@);
            assert("avecko"@[0] != "hangar"@[0]);
            assert("avecko"@[0] != "raketa"@[0]);
            assert(room_by_key(normalized(room_name(m))) == Some(Miestnost::Avecko));
        },
        Miestnost::Labak => {
            reveal_strlit("Labak");
            lemma_plain_name_key(room_name(m));
            assert(ascii_lowercase(room_name(m)) =~= "labak"@);
            assert(room_by_key(normalized(room_name(m))) == Some(Miestnost::Labak));
        },
        Miestnost::Vypoctovka => {
            reveal_strlit("Vypoctovka");
            lemma_plain_name_key(room_name(m));
            assert(ascii_lowercase(room_name(m)) =~= "vypoctovka"@);
            assert(room_by_key(normalized(room_name(m))) == Some(Miestnost::Vypoctovka));
        },
        Miestnost::Velin => {
            reveal_strlit("Velin");
            lemma_plain_name_key(room_name(m));
            assert(ascii_lowercase(room_name(m)) =~= "velin"@);
            assert("velin"@[0] != "labak"@[0]);
            assert(room_by_key(normalized(room_name(m))) == Some(Miestnost::Velin));
        },
        Miestnost::Datacentrum => {
            reveal_strlit("Datacentrum");
            lemma_plain_name_key(room_name(m));
            assert(ascii_lowercase(room_name(m)) =~= "datacentrum"@);
            assert(room_by_key(normalized(room_name(m))) == Some(Miestnost::Datacentrum));
        },
        Miestnost::Konstrukcia => {
            reveal_strlit("Konstrukcia");
            lemma_plain_name_key(room_name(m));
            assert(ascii_lowercase(room_name(m)) =~= "konstrukcia"@);
            assert("konstrukcia"@[0] != "datacentrum"@[0]);
            assert(room_by_key(normalized(room_name(m))) == Some(Miestnost::Konstrukcia));
        },
        Miestnost::Dielna => {
            reveal_strlit("Dielna");
            lemma_plain_name_key(room_name(m));
            assert(ascii_lowercase(room_name(m)) =~= "dielna"@);
            assert("dielna"@[0] != "hangar"@[0]);
            assert("dielna"@[0] != "raketa"@[0]);
            assert("dielna"@[0] != "avecko"@[0]);
            assert(room_by_key(normalized(room_name(m))) == Some(Miestnost::Dielna));
        },
        Miestnost::Sklad => {
            reveal_strlit("Sklad");
            lemma_plain_name_key(room_name(m));
            assert(ascii_lowercase(room_name(m)) =~= "sklad"@);
            assert("sklad"@[0] != "labak"@[0]);
            assert("sklad"@[0] != "velin"@[0]);
            assert(room_by_key(normalized(room_name(m))) == Some(Miestnost::Sklad));
        },
    }
}

} // verus!

use vstd::prelude::*;
use vstd::multiset::Multiset;
use crate::element::{Element, Inventory, element_name};
use crate::json::{Json, json_field};
use crate::world::{Miestnost, route};

verus! {

broadcast use {
    vstd::string::group_string_axioms,
    vstd::seq_lib::group_to_multiset_ensures,
    vstd::multiset::group_multiset_axioms,
};

/// How many elements the player can carry.
pub const INVENTORY_CAPACITY: usize = 10;

/// Index of the first `x` in `s`, or -1 when there is none.
pub open spec fn first_index(s: Seq<Element>, x: Element) -> int
    decreases s.len(),
{
    if s.len() == 0 {
        -1
    } else if s[0] == x {
        0
    } else {
        let k = first_index(s.drop_first(), x);
        if k < 0 { -1 } else { k + 1 }
    }
}

/// `s` without its first `x` (unchanged when it holds none).
pub open spec fn remove_first(s: Seq<Element>, x: Element) -> Seq<Element> {
    let k = first_index(s, x);
    if k < 0 { s } else { s.remove(k) }
}

/// `s` without one `x` for each `x` of `xs`, taken in order.
pub open spec fn remove_each(s: Seq<Element>, xs: Seq<Element>) -> Seq<Element>
    decreases xs.len(),
{
    if xs.len() == 0 {
        s
    } else {
        remove_each(remove_first(s, xs[0]), xs.drop_first())
    }
}

pub proof fn lemma_first_index(s: Seq<Element>, x: Element)
    ensures
        -1 <= first_index(s, x) < s.len(),
        first_index(s, x) >= 0 ==> s[first_index(s, x)] == x,
        first_index(s, x) >= 0 ==> forall|j: int| 0 <= j < first_index(s, x) ==> s[j] != x,
        first_index(s, x) < 0 ==> !s.contains(x),
    decreases s.len(),
{
    if s.len() > 0 {
        lemma_first_index(s.drop_first(), x);
        if first_index(s, x) < 0 {
            assert forall|j: int| 0 <= j < s.len() implies s[j] != x by {
                if j > 0 {
                    assert(s[j] == s.drop_first()[j - 1]);
                }
            }
        } else if s[0] != x {
            let k = first_index(s, x);
            assert forall|j: int| 0 <= j < k implies s[j] != x by {
                if j > 0 {
                    assert(s[j] == s.drop_first()[j - 1]);
                }
            }
        }
    }
}

/// Removing the first `x` removes one `x` from the multiset.
pub proof fn lemma_remove_first_multiset(s: Seq<Element>, x: Element)
    ensures
        remove_first(s, x).to_multiset() =~= s.to_multiset().remove(x),
        remove_first(s, x).len() == s.len() - (if s.contains(x) { 1int } else { 0int }),
{
    lemma_first_index(s, x);
    let k = first_index(s, x);
    if k < 0 {
        assert(s.to_multiset().count(x) == 0);
    }
}

/// Removing each of `xs` takes the multiset difference.
pub proof fn lemma_remove_each_multiset(s: Seq<Element>, xs: Seq<Element>)
    ensures
        remove_each(s, xs).to_multiset() =~= s.to_multiset().sub(xs.to_multiset()),
    decreases xs.len(),
{
    if xs.len() == 0 {
        assert(xs.to_multiset() =~= Multiset::empty());
    } else {
        let x = xs[0];
        lemma_remove_first_multiset(s, x);
        lemma_remove_each_multiset(remove_first(s, x), xs.drop_first());
        assert(xs =~= seq![x] + xs.drop_first());
        vstd::seq_lib::lemma_multiset_commutative(seq![x], xs.drop_first());
        assert(seq![x].to_multiset() =~= Multiset::singleton(x)) by {
            assert(seq![x] =~= Seq::<Element>::empty().push(x));
        }
    }
}

/// `v` without its first `x`.
pub fn remove_first_in(v: &mut Vec<Element>, x: Element)
    ensures
        final(v)@ == remove_first(old(v)@, x),
{
    proof {
        lemma_first_index(v@, x);
    }
    let mut i: usize = 0;
    while i < v.len()
        invariant
            0 <= i <= v.len(),
            v@ == old(v)@,
            forall|j: int| 0 <= j < i ==> v@[j] != x,
        decreases v.len() - i,
    {
        if v[i] == x {
            proof {
                lemma_first_index(v@, x);
                let k = first_index(v@, x);
                if k < 0 {
                    assert(v@.contains(x));
                }
                assert(k == i);
            }
            v.remove(i);
            return;
        }
        i = i + 1;
    }
    proof {
        lemma_first_index(v@, x);
        if first_index(v@, x) >= 0 {
            assert(v@[first_index(v@, x)] == x);
        }
    }
}

/// A copy of `v`.
pub fn copy_elements(v: &Vec<Element>) -> (r: Vec<Element>)
    ensures
        r@ == v@,
{
    let mut r: Vec<Element> = Vec::new();
    let mut i: usize = 0;
    while i < v.len()
        invariant
            0 <= i <= v.len(),
            r@ == v@.subrange(0, i as int),
        decreases v.len() - i,
    {
        r.push(v[i]);
        i = i + 1;
        proof {
            assert(r@ =~= v@.subrange(0, i as int));
        }
    }
    proof {
        assert(v@.subrange(0, i as int) =~= v@);
    }
    r
}


/// How many elements must go back to storage so that `carried` elements plus
/// `to_take` more fit the capacity.
pub open spec fn deposit_count(carried: int, to_take: int) -> int {
    if carried + to_take > INVENTORY_CAPACITY { carried + to_take - INVENTORY_CAPACITY } else { 0 }
}

/// The last `k` elements of `extra`, last first: the order in which they are
/// popped.
pub open spec fn popped(extra: Seq<Element>, k: int) -> Seq<Element> {
    Seq::new(k as nat, |j: int| extra[extra.len() - 1 - j])
}

/// How to come to carry `items`: the elements to put back into storage, in
/// order, and then the elements to take from it, in order.
pub struct HavePlan {
    pub deposits: Vec<Element>,
    pub to_take: Vec<Element>,
    /// The surplus runs out before the capacity is reached: more elements
    /// are asked for than can be carried.
    pub runs_out: bool,
}

/// The elements of `items` that `carried` lacks.
pub open spec fn missing(carried: Seq<Element>, items: Seq<Element>) -> Seq<Element> {
    remove_each(items, carried)
}

/// The elements of `carried` that `items` does not ask for.
pub open spec fn surplus(carried: Seq<Element>, items: Seq<Element>) -> Seq<Element> {
    remove_each(carried, items)
}

/// The elements to put back before taking what is missing.
pub open spec fn planned_deposits(carried: Seq<Element>, items: Seq<Element>) -> Seq<Element> {
    let extra = surplus(carried, items);
    let k = deposit_count(carried.len() as int, missing(carried, items).len() as int);
    popped(extra, if k <= extra.len() { k } else { extra.len() as int })
}

/// Whether putting back the whole surplus still leaves too much to carry.
pub open spec fn surplus_runs_out(carried: Seq<Element>, items: Seq<Element>) -> bool {
    deposit_count(carried.len() as int, missing(carried, items).len() as int) > surplus(carried, items).len()
}

/// `|a| - |a - b|` is the size of the common part, so it is the same from
/// both sides.
proof fn lemma_common_part(a: Seq<Element>, b: Seq<Element>)
    ensures
        a.len() - remove_each(a, b).len() == b.len() - remove_each(b, a).len(),
{
    lemma_remove_each_multiset(a, b);
    lemma_remove_each_multiset(b, a);
    let ma = a.to_multiset();
    let mb = b.to_multiset();
    let common = ma.intersection_with(mb);
    assert forall|x: Element| #[trigger] common.count(x) == mb.intersection_with(ma).count(x)
        && ma.sub(mb).count(x) == ma.sub(common).count(x) && mb.sub(ma).count(x) == mb.sub(common).count(x) by {
        vstd::multiset::lemma_intersection_count(ma, mb, x);
        vstd::multiset::lemma_intersection_count(mb, ma, x);
    }
    assert(common =~= mb.intersection_with(ma));
    assert(ma.sub(mb) =~= ma.sub(common));
    assert(mb.sub(ma) =~= mb.sub(common));
    assert forall|x: Element| #[trigger] common.count(x) <= ma.count(x) && common.count(x) <= mb.count(x) by {
        vstd::multiset::lemma_intersection_count(ma, mb, x);
    }
    assert(common.subset_of(ma));
    assert(common.subset_of(mb));
    assert(ma.sub(common).len() == ma.len() - common.len());
    assert(mb.sub(common).len() == mb.len() - common.len());
}

/// The plan for coming to carry `items` when carrying `carried`: what is
/// missing is taken; as many surplus elements as needed to stay within the
/// capacity are put back first, the last carried first. The surplus runs out
/// exactly when more elements are asked for than can be carried; then all of
/// it is put back.
pub fn plan_have_items(carried: &Vec<Element>, items: &Vec<Element>) -> (p: HavePlan)
    ensures
        p.to_take@ == missing(carried@, items@),
        p.deposits@ == planned_deposits(carried@, items@),
        p.runs_out == surplus_runs_out(carried@, items@),
        p.runs_out == (items@.len() > INVENTORY_CAPACITY),
{
    let mut to_take = copy_elements(items);
    let mut i: usize = 0;
    while i < carried.len()
        invariant
            0 <= i <= carried.len(),
            to_take@ == remove_each(items@, carried@.subrange(0, i as int)),
        decreases carried.len() - i,
    {
        proof {
            lemma_remove_each_step(items@, carried@, i as int);
        }
        remove_first_in(&mut to_take, carried[i]);
        i = i + 1;
    }
    let mut extra = copy_elements(carried);
    let mut j: usize = 0;
    while j < items.len()
        invariant
            0 <= j <= items.len(),
            extra@ == remove_each(carried@, items@.subrange(0, j as int)),
        decreases items.len() - j,
    {
        proof {
            lemma_remove_each_step(carried@, items@, j as int);
        }
        remove_first_in(&mut extra, items[j]);
        j = j + 1;
    }
    proof {
        assert(carried@.subrange(0, carried@.len() as int) =~= carried@);
        assert(items@.subrange(0, items@.len() as int) =~= items@);
        lemma_common_part(carried@, items@);
        lemma_remove_each_len(items@, carried@);
        lemma_remove_each_len(carried@, items@);
    }
    let ghost ex0 = extra@;
    let runs_out = items.len() > INVENTORY_CAPACITY;
    let k: usize = if runs_out {
        extra.len()
    } else {
        let room = INVENTORY_CAPACITY - to_take.len();
        if carried.len() > room {
            carried.len() - room
        } else {
            0
        }
    };
    let mut deposits: Vec<Element> = Vec::new();
    let mut n: usize = 0;
    while n < k
        invariant
            0 <= n <= k,
            k <= ex0.len(),
            extra@ == ex0.subrange(0, ex0.len() - n),
            deposits@ == popped(ex0, n as int),
        decreases k - n,
    {
        let e = match extra.pop() {
            Some(e) => e,
            None => {
                proof {
                    assert(false);
                }
                return HavePlan { deposits, to_take, runs_out };
            },
        };
        deposits.push(e);
        n = n + 1;
        proof {
            assert(deposits@ =~= popped(ex0, n as int));
            assert(extra@ =~= ex0.subrange(0, ex0.len() - n));
        }
    }
    proof {
        assert(deposits@ =~= planned_deposits(carried@, items@));
    }
    HavePlan { deposits, to_take, runs_out }
}

proof fn lemma_remove_each_step(s: Seq<Element>, xs: Seq<Element>, i: int)
    requires
        0 <= i < xs.len(),
    ensures
        remove_each(s, xs.subrange(0, i + 1)) == remove_first(remove_each(s, xs.subrange(0, i)), xs[i]),
    decreases i,
{
    if i == 0 {
        assert(xs.subrange(0, 1).drop_first() =~= Seq::<Element>::empty());
        assert(xs.subrange(0, 1)[0] == xs[0]);
        assert(xs.subrange(0, 0).len() == 0);
        assert(remove_each(s, xs.subrange(0, 1)) == remove_each(remove_first(s, xs[0]), xs.subrange(0, 1).drop_first()));
    } else {
        let s1 = remove_first(s, xs[0]);
        lemma_remove_each_step(s1, xs.drop_first(), i - 1);
        assert(xs.subrange(0, i + 1).drop_first() =~= xs.drop_first().subrange(0, i));
        assert(xs.subrange(0, i).drop_first() =~= xs.drop_first().subrange(0, i - 1));
        assert(xs.subrange(0, i + 1)[0] == xs[0]);
        assert(xs.subrange(0, i)[0] == xs[0]);
        assert(xs.drop_first()[i - 1] == xs[i]);
        assert(remove_each(s, xs.subrange(0, i + 1)) == remove_each(s1, xs.subrange(0, i + 1).drop_first()));
        assert(remove_each(s, xs.subrange(0, i)) == remove_each(s1, xs.subrange(0, i).drop_first()));
    }
}

proof fn lemma_remove_each_len(s: Seq<Element>, xs: Seq<Element>)
    ensures
        remove_each(s, xs).len() <= s.len(),
    decreases xs.len(),
{
    if xs.len() > 0 {
        lemma_remove_first_multiset(s, xs[0]);
        lemma_remove_each_len(remove_first(s, xs[0]), xs.drop_first());
    }
}

/// Law of `have_items`: after putting back the planned deposits and taking
/// what is missing, the player carries every requested element (as many
/// times as requested), only surplus elements were put back, and the
/// inventory stays within its capacity.
pub proof fn lemma_have_items_plan(carried: Seq<Element>, items: Seq<Element>)
    requires
        items.len() <= INVENTORY_CAPACITY,
    ensures
        ({
            let deposits = planned_deposits(carried, items);
            let after = carried.to_multiset().sub(deposits.to_multiset()).add(missing(carried, items).to_multiset());
            &&& items.to_multiset().subset_of(after)
            &&& deposits.to_multiset().subset_of(surplus(carried, items).to_multiset())
            &&& after.len() <= INVENTORY_CAPACITY
        }),
{
    let extra = surplus(carried, items);
    let take = missing(carried, items);
    let k = deposit_count(carried.len() as int, take.len() as int);
    let deposits = planned_deposits(carried, items);
    lemma_common_part(carried, items);
    lemma_remove_each_multiset(carried, items);
    lemma_remove_each_multiset(items, carried);
    lemma_remove_each_len(carried, items);
    assert(0 <= k <= extra.len());
    let suffix = extra.subrange(extra.len() - k, extra.len() as int);
    assert(deposits =~= suffix.reverse());
    suffix.lemma_reverse_to_multiset();
    assert(extra =~= extra.subrange(0, extra.len() - k) + suffix);
    vstd::seq_lib::lemma_multiset_commutative(extra.subrange(0, extra.len() - k), suffix);
    let mc = carried.to_multiset();
    let mi = items.to_multiset();
    let md = deposits.to_multiset();
    assert(md.subset_of(extra.to_multiset()));
    assert(md.subset_of(mc));
    let after = mc.sub(md).add(take.to_multiset());
    assert forall|x: Element| mi.count(x) <= #[trigger] after.count(x) by {
        assert(md.count(x) <= extra.to_multiset().count(x));
    }
    assert(mc.sub(md).len() == mc.len() - md.len());
    assert(md.len() == k);
}

/// Why taking an element failed.
#[derive(Copy, Clone, Debug, PartialEq, Eq, Structural)]
pub enum TakeError {
    /// The player already carries as much as allowed.
    FullInventory,
    /// The storage does not hold that element.
    NotEnoughItems(Element),
}

/// The message of a failed take.
pub open spec fn take_error_message(e: TakeError) -> Seq<char> {
    match e {
        TakeError::FullInventory => "full inventory"@,
        TakeError::NotEnoughItems(item) => "not enough items "@ + element_name(item),
    }
}

impl TakeError {
    /// The message of a failed take.
    pub fn message(&self) -> (s: String)
        ensures
            s@ == take_error_message(*self),
    {
        match self {
            TakeError::FullInventory => "full inventory".to_string(),
            TakeError::NotEnoughItems(item) => {
                let mut s = "not enough items ".to_string();
                let name = item.to_string();
                s.append(name.as_str());
                s
            },
        }
    }
}

/// What the client knows of the player: where they are and what they carry.
pub struct Session {
    pub current_room: Miestnost,
    pub current_inventory: Inventory,
}

impl Session {
    /// The state before logging in: on the rocket, carrying nothing.
    pub fn new() -> (s: Session)
        ensures
            s.current_room == Miestnost::Raketa,
            s.current_inventory@ == Seq::<Element>::empty(),
    {
        Session { current_room: Miestnost::Raketa, current_inventory: Inventory { items: Vec::new() } }
    }

    /// The rooms to walk through to reach `target`.
    pub fn route_to(&self, target: Miestnost) -> (r: Vec<Miestnost>)
        ensures
            r@ == route(self.current_room, target),
    {
        self.current_room.pathfind(target)
    }

    /// The player has stepped into `room`.
    pub fn arrive(&mut self, room: Miestnost)
        ensures
            final(self).current_room == room,
            final(self).current_inventory@ == old(self).current_inventory@,
    {
        self.current_room = room;
    }

    /// The server has listed what the player carries.
    pub fn set_inventory(&mut self, inventory: Inventory)
        ensures
            final(self).current_room == old(self).current_room,
            final(self).current_inventory@ == inventory@,
    {
        self.current_inventory = inventory;
    }

    /// Everything carried has been put into storage.
    pub fn clear_inventory(&mut self)
        ensures
            final(self).current_room == old(self).current_room,
            final(self).current_inventory@ == Seq::<Element>::empty(),
    {
        self.current_inventory.items.clear();
    }

    /// Whether the player may take one more element.
    pub fn check_take(&self) -> (r: Result<(), TakeError>)
        ensures
            r == (if self.current_inventory@.len() >= INVENTORY_CAPACITY {
                Err(TakeError::FullInventory)
            } else {
                Ok(())
            }),
    {
        if self.current_inventory.items.len() >= INVENTORY_CAPACITY {
            Err(TakeError::FullInventory)
        } else {
            Ok(())
        }
    }

    /// The server has answered a take of `item`: without an error the item
    /// is now carried; with one, nothing changes and the take failed.
    pub fn finish_take(&mut self, item: Element, reply: &Json) -> (r: Result<(), TakeError>)
        ensures
            final(self).current_room == old(self).current_room,
            json_field(*reply, "error"@) is None ==> r == Ok::<(), TakeError>(())
                && final(self).current_inventory@ == old(self).current_inventory@.push(item),
            json_field(*reply, "error"@) is Some ==> r == Err::<(), TakeError>(TakeError::NotEnoughItems(item))
                && final(self).current_inventory@ == old(self).current_inventory@,
    {
        if !reply.has_key("error") {
            self.current_inventory.items.push(item);
            Ok(())
        } else {
            Err(TakeError::NotEnoughItems(item))
        }
    }
}

} // verus!

use vstd::prelude::*;
use crate::element::{Element, ELEMENT_COUNT, element_index, recipe_of, tier, lemma_ingredients_lower_tier, all_elements};

verus! {

/// The elements crafted, in order, to make `e` from a storage that holds
/// `stock[element_index(x)]` of each `x`, and the storage left afterwards:
/// each ingredient is taken from storage when there is one, and crafted
/// first otherwise; raw elements are never crafted.
pub open spec fn craft_plan(e: Element, stock: Seq<u32>) -> (Seq<Element>, Seq<u32>)
    decreases tier(e), 1nat, 0nat,
{
    match recipe_of(e) {
        None => (Seq::empty(), stock),
        Some(r) => {
            let p = ingredients_plan(r.1, stock, tier(e));
            (p.0.push(e), p.1)
        },
    }
}

/// The crafts for a list of ingredients of an element of tier `bound`, one
/// ingredient after the other.
pub open spec fn ingredients_plan(ings: Seq<Element>, stock: Seq<u32>, bound: nat) -> (Seq<Element>, Seq<u32>)
    decreases bound, 0nat, ings.len(),
{
    if ings.len() == 0 {
        (Seq::empty(), stock)
    } else {
        let i = ings[0];
        let k = element_index(i);
        if stock[k] > 0 {
            ingredients_plan(ings.drop_first(), stock.update(k, (stock[k] - 1) as u32), bound)
        } else if tier(i) < bound {
            let a = craft_plan(i, stock);
            let b = ingredients_plan(ings.drop_first(), a.1, bound);
            (a.0 + b.0, b.1)
        } else {
            (Seq::empty(), stock)
        }
    }
}

/// The elements to craft, in order, to make `element`, taking ingredients
/// from `stock` (counts by `element_index`) where it has them.
pub fn plan_crafts(element: Element, stock: &mut Vec<u32>) -> (plan: Vec<Element>)
    requires
        old(stock)@.len() == ELEMENT_COUNT,
    ensures
        final(stock)@.len() == ELEMENT_COUNT,
        (plan@, final(stock)@) == craft_plan(element, old(stock)@),
    decreases tier(element),
{
    match element.get_recipe() {
        None => Vec::new(),
        Some(recipe) => {
            let ings = recipe.ingredients;
            let ghost bound = tier(element);
            let ghost s0 = stock@;
            let mut plan: Vec<Element> = Vec::new();
            let mut i: usize = 0;
            proof {
                assert(ings@.skip(0) =~= ings@);
                assert(plan@ + ingredients_plan(ings@, s0, bound).0 =~= ingredients_plan(ings@, s0, bound).0);
            }
            while i < ings.len()
                invariant
                    0 <= i <= ings.len(),
                    recipe_of(element) == Some((recipe.station, ings@)),
                    bound == tier(element),
                    stock@.len() == ELEMENT_COUNT,
                    ingredients_plan(ings@, s0, bound).0 == plan@ + ingredients_plan(ings@.skip(i as int), stock@, bound).0,
                    ingredients_plan(ings@, s0, bound).1 == ingredients_plan(ings@.skip(i as int), stock@, bound).1,
                decreases ings.len() - i,
            {
                let ing = ings[i];
                let k = ing.index();
                proof {
                    assert(ings@.skip(i as int)[0] == ing);
                    assert(ings@.skip(i as int).drop_first() =~= ings@.skip(i + 1));
                    lemma_ingredients_lower_tier(element, i as int);
                }
                if stock[k] > 0 {
                    let left = stock[k] - 1;
                    stock.set(k, left);
                } else {
                    let ghost before = stock@;
                    let ghost before_plan = plan@;
                    let sub = plan_crafts(ing, stock);
                    let mut j: usize = 0;
                    while j < sub.len()
                        invariant
                            0 <= j <= sub.len(),
                            plan@ == before_plan + sub@.subrange(0, j as int),
                        decreases sub.len() - j,
                    {
                        plan.push(sub[j]);
                        j = j + 1;
                        proof {
                            assert(plan@ =~= before_plan + sub@.subrange(0, j as int));
                        }
                    }
                    proof {
                        assert(sub@.subrange(0, j as int) =~= sub@);
                        let a = craft_plan(ing, before);
                        let b = ingredients_plan(ings@.skip(i + 1), a.1, bound);
                        assert(ingredients_plan(ings@.skip(i as int), before, bound) == (a.0 + b.0, b.1));
                        assert(before_plan + (a.0 + b.0) =~= plan@ + b.0);
                    }
                }
                i = i + 1;
            }
            proof {
                assert(ings@.skip(i as int) =~= Seq::<Element>::empty());
                assert(plan@ =~= plan@ + ingredients_plan(ings@.skip(i as int), stock@, bound).0);
            }
            plan.push(element);
            plan
        },
    }
}

/// `x` is `e` itself or goes into `e`, directly or through the ingredients
/// of its ingredients.
pub open spec fn goes_into(x: Element, e: Element) -> bool
    decreases tier(e),
{
    ||| x == e
    ||| (recipe_of(e) is Some && exists|j: int|
        0 <= j < recipe_of(e).unwrap().1.len() && tier(recipe_of(e).unwrap().1[j]) < tier(e)
            && goes_into(x, #[trigger] recipe_of(e).unwrap().1[j]))
}

/// Law of the craft plan: everything in it can be crafted and goes into the
/// element asked for; it ends with that element when it can be crafted and
/// is empty otherwise; every ingredient of that element that storage lacks
/// and that can be crafted is crafted before it; and the storage only ever
/// gives elements out.
pub proof fn lemma_craft_plan(e: Element, stock: Seq<u32>)
    requires
        stock.len() == ELEMENT_COUNT,
    ensures
        ({
            let p = craft_plan(e, stock);
            &&& forall|i: int| 0 <= i < p.0.len() ==> recipe_of(#[trigger] p.0[i]) is Some
            &&& forall|i: int| 0 <= i < p.0.len() ==> goes_into(#[trigger] p.0[i], e)
            &&& recipe_of(e) is Some ==> p.0.len() > 0 && p.0.last() == e
            &&& recipe_of(e) is Some ==> forall|j: int|
                0 <= j < recipe_of(e).unwrap().1.len()
                    && stock[element_index(#[trigger] recipe_of(e).unwrap().1[j])] == 0
                    && recipe_of(recipe_of(e).unwrap().1[j]) is Some
                    ==> p.0.subrange(0, p.0.len() - 1).contains(recipe_of(e).unwrap().1[j])
            &&& recipe_of(e) is None ==> p.0.len() == 0
            &&& p.1.len() == stock.len()
            &&& forall|k: int| 0 <= k < stock.len() ==> #[trigger] p.1[k] <= stock[k]
        }),
    decreases tier(e), 1nat, 0nat,
{
    match recipe_of(e) {
        None => {},
        Some(r) => {
            assert forall|j: int| 0 <= j < r.1.len() implies tier(#[trigger] r.1[j]) < tier(e) by {
                lemma_ingredients_lower_tier(e, j);
            }
            lemma_ingredients_plan(r.1, stock, tier(e));
            let p = ingredients_plan(r.1, stock, tier(e));
            let q = p.0.push(e);
            assert(q.subrange(0, q.len() - 1) =~= p.0);
            assert forall|i: int| 0 <= i < q.len() implies recipe_of(#[trigger] q[i]) is Some && goes_into(q[i], e) by {
                if i < p.0.len() {
                    assert(q[i] == p.0[i]);
                    let j = choose|j: int| 0 <= j < r.1.len() && goes_into(p.0[i], r.1[j]);
                    lemma_ingredients_lower_tier(e, j);
                }
            }
        },
    }
}

/// The craft plan of a list of ingredients of an element of tier `bound`:
/// everything in it can be crafted and goes into one of the ingredients;
/// every ingredient that storage lacks and that can be crafted is crafted;
/// and the storage only ever gives elements out.
pub proof fn lemma_ingredients_plan(ings: Seq<Element>, stock: Seq<u32>, bound: nat)
    requires
        stock.len() == ELEMENT_COUNT,
        forall|j: int| 0 <= j < ings.len() ==> tier(#[trigger] ings[j]) < bound,
    ensures
        ({
            let p = ingredients_plan(ings, stock, bound);
            &&& forall|i: int| 0 <= i < p.0.len() ==> recipe_of(#[trigger] p.0[i]) is Some
            &&& forall|i: int| 0 <= i < p.0.len() ==> exists|j: int| 0 <= j < ings.len() && goes_into(#[trigger] p.0[i], ings[j])
            &&& forall|j: int|
                0 <= j < ings.len() && stock[element_index(#[trigger] ings[j])] == 0 && recipe_of(ings[j]) is Some
                    ==> p.0.contains(ings[j])
            &&& p.1.len() == stock.len()
            &&& forall|k: int| 0 <= k < stock.len() ==> #[trigger] p.1[k] <= stock[k]
        }),
    decreases bound, 0nat, ings.len(),
{
    if ings.len() > 0 {
        let i = ings[0];
        let k = element_index(i);
        let rest = ings.drop_first();
        assert forall|j: int| 0 <= j < rest.len() implies tier(#[trigger] rest[j]) < bound by {
            assert(rest[j] == ings[j + 1]);
        }
        if stock[k] > 0 {
            let s2 = stock.update(k, (stock[k] - 1) as u32);
            lemma_ingredients_plan(rest, s2, bound);
            let p = ingredients_plan(rest, s2, bound);
            assert forall|j: int| 0 <= j < stock.len() implies #[trigger] p.1[j] <= stock[j] by {
                assert(p.1[j] <= s2[j]);
            }
            assert forall|x: int| 0 <= x < p.0.len() implies exists|j: int| 0 <= j < ings.len() && goes_into(#[trigger] p.0[x], ings[j]) by {
                let j = choose|j: int| 0 <= j < rest.len() && goes_into(p.0[x], rest[j]);
                assert(rest[j] == ings[j + 1]);
            }
            assert forall|j: int|
                0 <= j < ings.len() && stock[element_index(#[trigger] ings[j])] == 0 && recipe_of(ings[j]) is Some
                implies p.0.contains(ings[j]) by {
                assert(j > 0);
                assert(rest[j - 1] == ings[j]);
                assert(s2[element_index(rest[j - 1])] == 0);
            }
        } else {
            lemma_craft_plan(i, stock);
            let a = craft_plan(i, stock);
            lemma_ingredients_plan(rest, a.1, bound);
            let b = ingredients_plan(rest, a.1, bound);
            let c = a.0 + b.0;
            assert forall|x: int| 0 <= x < c.len() implies recipe_of(#[trigger] c[x]) is Some
                && exists|j: int| 0 <= j < ings.len() && goes_into(c[x], ings[j]) by {
                if x < a.0.len() {
                    assert(c[x] == a.0[x]);
                    assert(goes_into(c[x], ings[0]));
                } else {
                    assert(c[x] == b.0[x - a.0.len()]);
                    let j = choose|j: int| 0 <= j < rest.len() && goes_into(b.0[x - a.0.len()], rest[j]);
                    assert(rest[j] == ings[j + 1]);
                }
            }
            assert forall|j: int| 0 <= j < stock.len() implies #[trigger] b.1[j] <= stock[j] by {
                assert(b.1[j] <= a.1[j]);
            }
            assert forall|j: int|
                0 <= j < ings.len() && stock[element_index(#[trigger] ings[j])] == 0 && recipe_of(ings[j]) is Some
                implies c.contains(ings[j]) by {
                if j == 0 {
                    assert(c[a.0.len() - 1] == i);
                } else {
                    assert(rest[j - 1] == ings[j]);
                    assert(a.1[element_index(rest[j - 1])] <= stock[element_index(ings[j])]);
                    let y = choose|y: int| 0 <= y < b.0.len() && b.0[y] == ings[j];
                    assert(c[a.0.len() + y] == ings[j]);
                }
            }
        }
    }
}

/// Law of the craft plan: storage is used before anything is crafted. An
/// element is crafted on the way to `e` only where storage has run out of it,
/// so whatever the plan crafts before `e` is left in storage none of.
pub proof fn lemma_crafts_only_missing(e: Element, stock: Seq<u32>)
    requires
        stock.len() == ELEMENT_COUNT,
    ensures
        ({
            let p = craft_plan(e, stock);
            forall|i: int| 0 <= i < p.0.len() - 1 ==> p.1[element_index(#[trigger] p.0[i])] == 0
        }),
    decreases tier(e), 1nat, 0nat,
{
    match recipe_of(e) {
        None => {},
        Some(r) => {
            assert forall|j: int| 0 <= j < r.1.len() implies tier(#[trigger] r.1[j]) < tier(e) by {
                lemma_ingredients_lower_tier(e, j);
            }
            lemma_ingredients_crafts_only_missing(r.1, stock, tier(e));
            let p = ingredients_plan(r.1, stock, tier(e));
            assert forall|i: int| 0 <= i < p.0.push(e).len() - 1 implies
                p.1[element_index(#[trigger] p.0.push(e)[i])] == 0 by {
                assert(p.0.push(e)[i] == p.0[i]);
            }
        },
    }
}

proof fn lemma_ingredients_crafts_only_missing(ings: Seq<Element>, stock: Seq<u32>, bound: nat)
    requires
        stock.len() == ELEMENT_COUNT,
        forall|j: int| 0 <= j < ings.len() ==> tier(#[trigger] ings[j]) < bound,
    ensures
        ({
            let p = ingredients_plan(ings, stock, bound);
            forall|i: int| 0 <= i < p.0.len() ==> p.1[element_index(#[trigger] p.0[i])] == 0
        }),
    decreases bound, 0nat, ings.len(),
{
    if ings.len() > 0 {
        let i = ings[0];
        let ki = element_index(i);
        let rest = ings.drop_first();
        assert forall|j: int| 0 <= j < rest.len() implies tier(#[trigger] rest[j]) < bound by {
            assert(rest[j] == ings[j + 1]);
        }
        if stock[ki] > 0 {
            let s2 = stock.update(ki, (stock[ki] - 1) as u32);
            lemma_ingredients_crafts_only_missing(rest, s2, bound);
            assert(ingredients_plan(ings, stock, bound) == ingredients_plan(rest, s2, bound));
        } else {
            assert(tier(ings[0]) < bound);
            lemma_craft_plan(i, stock);
            lemma_crafts_only_missing(i, stock);
            let a = craft_plan(i, stock);
            lemma_ingredients_plan(rest, a.1, bound);
            lemma_ingredients_crafts_only_missing(rest, a.1, bound);
            let b = ingredients_plan(rest, a.1, bound);
            let c = a.0 + b.0;
            assert forall|x: int| 0 <= x < c.len() implies b.1[element_index(#[trigger] c[x])] == 0 by {
                if x < a.0.len() {
                    assert(c[x] == a.0[x]);
                    let kx = element_index(a.0[x]);
                    assert(0 <= kx < ELEMENT_COUNT);
                    if x == a.0.len() - 1 {
                        assert(a.0[x] == i);
                        assert(a.1[kx] <= stock[kx]);
                    } else {
                        assert(a.1[kx] == 0);
                    }
                    assert(b.1[kx] <= a.1[kx]);
                } else {
                    assert(c[x] == b.0[x - a.0.len()]);
                }
            }
            assert(ingredients_plan(ings, stock, bound) == (c, b.1));
        }
    }
}

/// Whether index `k` is that of an element that can be crafted.
pub open spec fn craftable_at(k: int) -> bool {
    recipe_of(all_elements()[k]) is Some
}

/// How many of `ings` are the element with index `k`.
pub open spec fn occurrences(ings: Seq<Element>, k: int) -> int
    decreases ings.len(),
{
    if ings.len() == 0 {
        0
    } else {
        (if element_index(ings[0]) == k { 1int } else { 0int }) + occurrences(ings.drop_first(), k)
    }
}

proof fn lemma_occurrences_nonneg(ings: Seq<Element>, k: int)
    ensures
        occurrences(ings, k) >= 0,
    decreases ings.len(),
{
    if ings.len() > 0 {
        lemma_occurrences_nonneg(ings.drop_first(), k);
    }
}

/// What is left of a pool of elements (counts by element index) once the
/// ingredients `ings` are used, one after the other: an element that can be
/// crafted must be in the pool; a raw element is used when the pool has one
/// and is otherwise left to be gathered. `None` when an ingredient that can
/// be crafted is missing.
pub open spec fn use_ingredients(ings: Seq<Element>, pool: Seq<int>) -> Option<Seq<int>>
    decreases ings.len(),
{
    if ings.len() == 0 {
        Some(pool)
    } else {
        let x = ings[0];
        let k = element_index(x);
        if pool[k] > 0 {
            use_ingredients(ings.drop_first(), pool.update(k, pool[k] - 1))
        } else if recipe_of(x) is None {
            use_ingredients(ings.drop_first(), pool)
        } else {
            None
        }
    }
}

/// The pool of elements after carrying out the crafts of `plan` in order,
/// starting from `pool`: each craft uses its recipe's ingredients and adds
/// one of what it makes. `None` when a craft cannot be carried out: it has no
/// recipe, or an ingredient that can be crafted is neither in the pool nor
/// made by an earlier craft.
pub open spec fn carry_out(plan: Seq<Element>, pool: Seq<int>) -> Option<Seq<int>>
    decreases plan.len(),
{
    if plan.len() == 0 {
        Some(pool)
    } else {
        let c = plan[0];
        match recipe_of(c) {
            None => None,
            Some(r) => match use_ingredients(r.1, pool) {
                None => None,
                Some(q) => carry_out(plan.drop_first(), q.update(element_index(c), q[element_index(c)] + 1)),
            },
        }
    }
}

/// The storage's counts as a pool.
pub open spec fn pool_of(stock: Seq<u32>) -> Seq<int> {
    stock.map_values(|v: u32| v as int)
}

proof fn lemma_index_round_trip(x: Element)
    ensures
        0 <= element_index(x) < ELEMENT_COUNT,
        all_elements()[element_index(x)] == x,
        craftable_at(element_index(x)) == (recipe_of(x) is Some),
{
}

proof fn lemma_carry_out_append(a: Seq<Element>, b: Seq<Element>, pool: Seq<int>)
    ensures
        carry_out(a + b, pool) == (match carry_out(a, pool) {
            Some(q) => carry_out(b, q),
            None => None,
        }),
    decreases a.len(),
{
    if a.len() == 0 {
        assert(a + b =~= b);
    } else {
        assert((a + b).drop_first() =~= a.drop_first() + b);
        assert((a + b)[0] == a[0]);
        match recipe_of(a[0]) {
            None => {},
            Some(r) => match use_ingredients(r.1, pool) {
                None => {},
                Some(q) => {
                    lemma_carry_out_append(a.drop_first(), b, q.update(element_index(a[0]), q[element_index(a[0])] + 1));
                },
            },
        }
    }
}

proof fn lemma_use_ingredients(ings: Seq<Element>, pool: Seq<int>)
    requires
        pool.len() == ELEMENT_COUNT,
        forall|k: int| 0 <= k < ELEMENT_COUNT && craftable_at(k) ==> pool[k] >= occurrences(ings, k),
    ensures
        use_ingredients(ings, pool) is Some,
        use_ingredients(ings, pool).unwrap().len() == ELEMENT_COUNT,
        forall|k: int| 0 <= k < ELEMENT_COUNT && craftable_at(k)
            ==> #[trigger] use_ingredients(ings, pool).unwrap()[k] == pool[k] - occurrences(ings, k),
    decreases ings.len(),
{
    if ings.len() > 0 {
        let x = ings[0];
        let k0 = element_index(x);
        lemma_index_round_trip(x);
        let rest = ings.drop_first();
        if pool[k0] > 0 {
            let p2 = pool.update(k0, pool[k0] - 1);
            assert forall|k: int| 0 <= k < ELEMENT_COUNT && craftable_at(k) implies p2[k] >= occurrences(rest, k) by {
                assert(pool[k] >= occurrences(ings, k));
            }
            lemma_use_ingredients(rest, p2);
            assert forall|k: int| 0 <= k < ELEMENT_COUNT && craftable_at(k)
                implies #[trigger] use_ingredients(ings, pool).unwrap()[k] == pool[k] - occurrences(ings, k) by {
                assert(use_ingredients(rest, p2).unwrap()[k] == p2[k] - occurrences(rest, k));
            }
        } else {
            assert(!craftable_at(k0)) by {
                lemma_occurrences_nonneg(rest, k0);
                if craftable_at(k0) {
                    assert(pool[k0] >= occurrences(ings, k0));
                }
            }
            assert forall|k: int| 0 <= k < ELEMENT_COUNT && craftable_at(k) implies pool[k] >= occurrences(rest, k) by {
                assert(pool[k] >= occurrences(ings, k));
            }
            lemma_use_ingredients(rest, pool);
            assert forall|k: int| 0 <= k < ELEMENT_COUNT && craftable_at(k)
                implies #[trigger] use_ingredients(ings, pool).unwrap()[k] == pool[k] - occurrences(ings, k) by {
                assert(use_ingredients(rest, pool).unwrap()[k] == pool[k] - occurrences(rest, k));
            }
        }
    }
}

/// Carrying out the plan for `e` from a pool that holds at least what the
/// plan counts on from storage uses up what it takes from storage and leaves
/// one more `e`.
proof fn lemma_craft_plan_carries_out(e: Element, stock: Seq<u32>, pool: Seq<int>)
    requires
        stock.len() == ELEMENT_COUNT,
        pool.len() == ELEMENT_COUNT,
        forall|k: int| 0 <= k < ELEMENT_COUNT && craftable_at(k) ==> pool[k] >= stock[k],
    ensures
        ({
            let p = craft_plan(e, stock);
            let r = carry_out(p.0, pool);
            &&& r is Some
            &&& r.unwrap().len() == ELEMENT_COUNT
            &&& forall|k: int| 0 <= k < ELEMENT_COUNT && craftable_at(k) ==> #[trigger] r.unwrap()[k]
                == pool[k] - stock[k] + p.1[k] + (if recipe_of(e) is Some && k == element_index(e) { 1int } else { 0int })
        }),
    decreases tier(e), 1nat, 0nat,
{
    lemma_craft_plan(e, stock);
    match recipe_of(e) {
        None => {},
        Some(r) => {
            assert forall|j: int| 0 <= j < r.1.len() implies tier(#[trigger] r.1[j]) < tier(e) by {
                lemma_ingredients_lower_tier(e, j);
            }
            lemma_ingredients_plan_carries_out(r.1, stock, tier(e), pool);
            let p = ingredients_plan(r.1, stock, tier(e));
            let t = carry_out(p.0, pool).unwrap();
            lemma_ingredients_plan(r.1, stock, tier(e));
            assert forall|k: int| 0 <= k < ELEMENT_COUNT && craftable_at(k) implies t[k] >= occurrences(r.1, k) by {
                assert(t[k] == pool[k] - stock[k] + p.1[k] + occurrences(r.1, k));
                assert(p.1[k] >= 0);
            }
            lemma_use_ingredients(r.1, t);
            let u = use_ingredients(r.1, t).unwrap();
            let ke = element_index(e);
            lemma_index_round_trip(e);
            let v = u.update(ke, u[ke] + 1);
            let one = seq![e];
            assert(one.drop_first() =~= Seq::<Element>::empty());
            assert(one[0] == e);
            assert(carry_out(one.drop_first(), v) == Some(v));
            assert(carry_out(one, t) == Some(v));
            lemma_carry_out_append(p.0, seq![e], pool);
            assert(p.0.push(e) =~= p.0 + seq![e]);
            assert forall|k: int| 0 <= k < ELEMENT_COUNT && craftable_at(k) implies #[trigger] v[k]
                == pool[k] - stock[k] + p.1[k] + (if k == ke { 1int } else { 0int }) by {
                assert(u[k] == t[k] - occurrences(r.1, k));
                assert(t[k] == pool[k] - stock[k] + p.1[k] + occurrences(r.1, k));
            }
        },
    }
}

proof fn lemma_ingredients_plan_carries_out(ings: Seq<Element>, stock: Seq<u32>, bound: nat, pool: Seq<int>)
    requires
        stock.len() == ELEMENT_COUNT,
        pool.len() == ELEMENT_COUNT,
        forall|j: int| 0 <= j < ings.len() ==> tier(#[trigger] ings[j]) < bound,
        forall|k: int| 0 <= k < ELEMENT_COUNT && craftable_at(k) ==> pool[k] >= stock[k],
    ensures
        ({
            let p = ingredients_plan(ings, stock, bound);
            let r = carry_out(p.0, pool);
            &&& r is Some
            &&& r.unwrap().len() == ELEMENT_COUNT
            &&& forall|k: int| 0 <= k < ELEMENT_COUNT && craftable_at(k) ==> #[trigger] r.unwrap()[k]
                == pool[k] - stock[k] + p.1[k] + occurrences(ings, k)
        }),
    decreases bound, 0nat, ings.len(),
{
    if ings.len() > 0 {
        let i = ings[0];
        let k = element_index(i);
        lemma_index_round_trip(i);
        let rest = ings.drop_first();
        assert forall|j: int| 0 <= j < rest.len() implies tier(#[trigger] rest[j]) < bound by {
            assert(rest[j] == ings[j + 1]);
        }
        if stock[k] > 0 {
            let s2 = stock.update(k, (stock[k] - 1) as u32);
            lemma_ingredients_plan_carries_out(rest, s2, bound, pool);
            let p = ingredients_plan(rest, s2, bound);
            assert forall|x: int| 0 <= x < ELEMENT_COUNT && craftable_at(x) implies #[trigger] carry_out(p.0, pool).unwrap()[x]
                == pool[x] - stock[x] + p.1[x] + occurrences(ings, x) by {
                assert(carry_out(p.0, pool).unwrap()[x] == pool[x] - s2[x] + p.1[x] + occurrences(rest, x));
            }
        } else {
            assert(tier(ings[0]) < bound);
            lemma_craft_plan(i, stock);
            lemma_craft_plan_carries_out(i, stock, pool);
            let a = craft_plan(i, stock);
            let u = carry_out(a.0, pool).unwrap();
            assert forall|x: int| 0 <= x < ELEMENT_COUNT && craftable_at(x) implies u[x] >= a.1[x] by {
                assert(u[x] == pool[x] - stock[x] + a.1[x] + (if recipe_of(i) is Some && x == k { 1int } else { 0int }));
            }
            lemma_ingredients_plan_carries_out(rest, a.1, bound, u);
            let b = ingredients_plan(rest, a.1, bound);
            lemma_carry_out_append(a.0, b.0, pool);
            let w = carry_out(b.0, u).unwrap();
            assert forall|x: int| 0 <= x < ELEMENT_COUNT && craftable_at(x) implies #[trigger] carry_out(a.0 + b.0, pool).unwrap()[x]
                == pool[x] - stock[x] + b.1[x] + occurrences(ings, x) by {
                assert(w[x] == u[x] - a.1[x] + b.1[x] + occurrences(rest, x));
                assert(u[x] == pool[x] - stock[x] + a.1[x] + (if recipe_of(i) is Some && x == k { 1int } else { 0int }));
                if x == k {
                    assert(recipe_of(i) is Some);
                }
            }
        }
    }
}

/// How many of the ingredients used by the crafts of `plan` are the element
/// with index `k`.
pub open spec fn ingredient_uses(plan: Seq<Element>, k: int) -> int
    decreases plan.len(),
{
    if plan.len() == 0 {
        0
    } else {
        (match recipe_of(plan[0]) {
            Some(r) => occurrences(r.1, k),
            None => 0,
        }) + ingredient_uses(plan.drop_first(), k)
    }
}

proof fn lemma_ingredient_uses_append(a: Seq<Element>, b: Seq<Element>, k: int)
    ensures
        ingredient_uses(a + b, k) == ingredient_uses(a, k) + ingredient_uses(b, k),
        ingredient_uses(a, k) >= 0,
    decreases a.len(),
{
    if a.len() == 0 {
        assert(a + b =~= b);
    } else {
        assert((a + b).drop_first() =~= a.drop_first() + b);
        assert((a + b)[0] == a[0]);
        lemma_ingredient_uses_append(a.drop_first(), b, k);
        match recipe_of(a[0]) {
            Some(r) => lemma_occurrences_nonneg(r.1, k),
            None => {},
        }
    }
}

/// Using ingredients takes a raw element from the pool while it has one.
proof fn lemma_use_ingredients_raw(ings: Seq<Element>, pool: Seq<int>)
    requires
        pool.len() == ELEMENT_COUNT,
        forall|k: int| 0 <= k < ELEMENT_COUNT ==> pool[k] >= 0,
        use_ingredients(ings, pool) is Some,
    ensures
        use_ingredients(ings, pool).unwrap().len() == ELEMENT_COUNT,
        forall|k: int| 0 <= k < ELEMENT_COUNT ==> use_ingredients(ings, pool).unwrap()[k] >= 0,
        forall|k: int| 0 <= k < ELEMENT_COUNT && !craftable_at(k) ==> #[trigger] use_ingredients(ings, pool).unwrap()[k]
            == if pool[k] - occurrences(ings, k) > 0 { pool[k] - occurrences(ings, k) } else { 0 },
    decreases ings.len(),
{
    if ings.len() > 0 {
        let x = ings[0];
        let k0 = element_index(x);
        lemma_index_round_trip(x);
        let rest = ings.drop_first();
        lemma_occurrences_nonneg(rest, k0);
        if pool[k0] > 0 {
            let p2 = pool.update(k0, pool[k0] - 1);
            lemma_use_ingredients_raw(rest, p2);
            assert forall|k: int| 0 <= k < ELEMENT_COUNT && !craftable_at(k) implies #[trigger] use_ingredients(ings, pool).unwrap()[k]
                == if pool[k] - occurrences(ings, k) > 0 { pool[k] - occurrences(ings, k) } else { 0 } by {
                lemma_occurrences_nonneg(rest, k);
                assert(use_ingredients(rest, p2).unwrap()[k] == if p2[k] - occurrences(rest, k) > 0 { p2[k] - occurrences(rest, k) } else { 0 });
            }
        } else {
            lemma_use_ingredients_raw(rest, pool);
            assert forall|k: int| 0 <= k < ELEMENT_COUNT && !craftable_at(k) implies #[trigger] use_ingredients(ings, pool).unwrap()[k]
                == if pool[k] - occurrences(ings, k) > 0 { pool[k] - occurrences(ings, k) } else { 0 } by {
                lemma_occurrences_nonneg(rest, k);
                assert(use_ingredients(rest, pool).unwrap()[k] == if pool[k] - occurrences(rest, k) > 0 { pool[k] - occurrences(rest, k) } else { 0 });
            }
        }
    }
}

/// Carrying out a plan takes a raw element from the pool while it has one.
proof fn lemma_carry_out_raw(plan: Seq<Element>, pool: Seq<int>)
    requires
        pool.len() == ELEMENT_COUNT,
        forall|k: int| 0 <= k < ELEMENT_COUNT ==> pool[k] >= 0,
        carry_out(plan, pool) is Some,
    ensures
        carry_out(plan, pool).unwrap().len() == ELEMENT_COUNT,
        forall|k: int| 0 <= k < ELEMENT_COUNT && !craftable_at(k) ==> #[trigger] carry_out(plan, pool).unwrap()[k]
            == if pool[k] - ingredient_uses(plan, k) > 0 { pool[k] - ingredient_uses(plan, k) } else { 0 },
    decreases plan.len(),
{
    if plan.len() > 0 {
        let c = plan[0];
        let r = recipe_of(c).unwrap();
        lemma_use_ingredients_raw(r.1, pool);
        let q = use_ingredients(r.1, pool).unwrap();
        let kc = element_index(c);
        lemma_index_round_trip(c);
        let q2 = q.update(kc, q[kc] + 1);
        let rest = plan.drop_first();
        lemma_carry_out_raw(rest, q2);
        assert forall|k: int| 0 <= k < ELEMENT_COUNT && !craftable_at(k) implies #[trigger] carry_out(plan, pool).unwrap()[k]
            == if pool[k] - ingredient_uses(plan, k) > 0 { pool[k] - ingredient_uses(plan, k) } else { 0 } by {
            lemma_occurrences_nonneg(r.1, k);
            lemma_ingredient_uses_append(rest, Seq::empty(), k);
            assert(q2[k] == q[k]);
            assert(carry_out(rest, q2).unwrap()[k] == if q2[k] - ingredient_uses(rest, k) > 0 { q2[k] - ingredient_uses(rest, k) } else { 0 });
        }
    }
}

/// What the plan for `e` leaves of a raw element in storage: what was there
/// less what its crafts use, down to none.
proof fn lemma_craft_plan_raw(e: Element, stock: Seq<u32>)
    requires
        stock.len() == ELEMENT_COUNT,
    ensures
        ({
            let p = craft_plan(e, stock);
            forall|k: int| 0 <= k < ELEMENT_COUNT && !craftable_at(k) ==> #[trigger] p.1[k]
                == if stock[k] - ingredient_uses(p.0, k) > 0 { stock[k] - ingredient_uses(p.0, k) } else { 0 }
        }),
    decreases tier(e), 1nat, 0nat,
{
    match recipe_of(e) {
        None => {},
        Some(r) => {
            assert forall|j: int| 0 <= j < r.1.len() implies tier(#[trigger] r.1[j]) < tier(e) by {
                lemma_ingredients_lower_tier(e, j);
            }
            lemma_ingredients_plan_raw(r.1, stock, tier(e));
            let p = ingredients_plan(r.1, stock, tier(e));
            let one = seq![e];
            assert forall|k: int| 0 <= k < ELEMENT_COUNT && !craftable_at(k) implies #[trigger] craft_plan(e, stock).1[k]
                == if stock[k] - ingredient_uses(craft_plan(e, stock).0, k) > 0 { stock[k] - ingredient_uses(craft_plan(e, stock).0, k) } else { 0 } by {
                lemma_ingredient_uses_append(p.0, one, k);
                lemma_ingredient_uses_append(one.drop_first(), Seq::empty(), k);
                assert(one.drop_first() =~= Seq::<Element>::empty());
                assert(one[0] == e);
                assert(p.0.push(e) =~= p.0 + one);
                assert(ingredient_uses(one, k) == occurrences(r.1, k));
            }
        },
    }
}

proof fn lemma_ingredients_plan_raw(ings: Seq<Element>, stock: Seq<u32>, bound: nat)
    requires
        stock.len() == ELEMENT_COUNT,
        forall|j: int| 0 <= j < ings.len() ==> tier(#[trigger] ings[j]) < bound,
    ensures
        ({
            let p = ingredients_plan(ings, stock, bound);
            forall|k: int| 0 <= k < ELEMENT_COUNT && !craftable_at(k) ==> #[trigger] p.1[k]
                == if stock[k] - ingredient_uses(p.0, k) - occurrences(ings, k) > 0 {
                    stock[k] - ingredient_uses(p.0, k) - occurrences(ings, k)
                } else {
                    0
                }
        }),
    decreases bound, 0nat, ings.len(),
{
    if ings.len() > 0 {
        let i = ings[0];
        let ki = element_index(i);
        lemma_index_round_trip(i);
        let rest = ings.drop_first();
        assert forall|j: int| 0 <= j < rest.len() implies tier(#[trigger] rest[j]) < bound by {
            assert(rest[j] == ings[j + 1]);
        }
        if stock[ki] > 0 {
            let s2 = stock.update(ki, (stock[ki] - 1) as u32);
            lemma_ingredients_plan_raw(rest, s2, bound);
            let p = ingredients_plan(rest, s2, bound);
            assert forall|k: int| 0 <= k < ELEMENT_COUNT && !craftable_at(k) implies #[trigger] p.1[k]
                == if stock[k] - ingredient_uses(p.0, k) - occurrences(ings, k) > 0 {
                    stock[k] - ingredient_uses(p.0, k) - occurrences(ings, k)
                } else {
                    0
                } by {
                assert(p.1[k] == if s2[k] - ingredient_uses(p.0, k) - occurrences(rest, k) > 0 {
                    s2[k] - ingredient_uses(p.0, k) - occurrences(rest, k)
                } else {
                    0
                });
            }
        } else {
            assert(tier(ings[0]) < bound);
            lemma_craft_plan(i, stock);
            lemma_craft_plan_raw(i, stock);
            let a = craft_plan(i, stock);
            lemma_ingredients_plan_raw(rest, a.1, bound);
            let b = ingredients_plan(rest, a.1, bound);
            assert forall|k: int| 0 <= k < ELEMENT_COUNT && !craftable_at(k) implies #[trigger] b.1[k]
                == if stock[k] - ingredient_uses(a.0 + b.0, k) - occurrences(ings, k) > 0 {
                    stock[k] - ingredient_uses(a.0 + b.0, k) - occurrences(ings, k)
                } else {
                    0
                } by {
                lemma_ingredient_uses_append(a.0, b.0, k);
                lemma_ingredient_uses_append(b.0, Seq::empty(), k);
                lemma_occurrences_nonneg(rest, k);
                assert(b.1[k] == if a.1[k] - ingredient_uses(b.0, k) - occurrences(rest, k) > 0 {
                    a.1[k] - ingredient_uses(b.0, k) - occurrences(rest, k)
                } else {
                    0
                });
                assert(a.1[k] == if stock[k] - ingredient_uses(a.0, k) > 0 { stock[k] - ingredient_uses(a.0, k) } else { 0 });
            }
        }
    }
}

/// Law of the craft plan: it can be carried out against storage. Walking the
/// plan in order from what storage holds, every ingredient that can be
/// crafted is either taken from storage or made by an earlier craft of the
/// plan (what a sub-craft took is not there for the ingredients after it),
/// a raw element is taken from storage while storage has one, and at the end
/// what is held is exactly what the plan leaves in storage, plus the element
/// asked for when it can be crafted.
pub proof fn lemma_plan_carries_out(e: Element, stock: Seq<u32>)
    requires
        stock.len() == ELEMENT_COUNT,
    ensures
        ({
            let p = craft_plan(e, stock);
            let r = carry_out(p.0, pool_of(stock));
            &&& r is Some
            &&& r.unwrap().len() == ELEMENT_COUNT
            &&& forall|x: Element| #[trigger] r.unwrap()[element_index(x)]
                == p.1[element_index(x)] + (if x == e && recipe_of(e) is Some { 1int } else { 0int })
        }),
{
    let pool = pool_of(stock);
    assert forall|k: int| 0 <= k < ELEMENT_COUNT && craftable_at(k) implies pool[k] >= stock[k] by {}
    lemma_craft_plan_carries_out(e, stock, pool);
    lemma_carry_out_raw(craft_plan(e, stock).0, pool);
    lemma_craft_plan_raw(e, stock);
    let p = craft_plan(e, stock);
    let r = carry_out(p.0, pool).unwrap();
    assert forall|x: Element| #[trigger] r[element_index(x)]
        == p.1[element_index(x)] + (if x == e && recipe_of(e) is Some { 1int } else { 0int }) by {
        lemma_index_round_trip(x);
        lemma_index_round_trip(e);
    }
}

} // verus!

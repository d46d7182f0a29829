use vstd::prelude::*;
use crate::element::{Element, ELEMENT_COUNT, element_name, lemma_element_name_key};
use crate::protocol::{craft_args, element_names};
use crate::text::{concat_sorted, sorted_concat, texts, joined, join_with, split_lines, text_lines, same_text,
    is_plain_name, lemma_lines_of_joined, text_order, lemma_text_order_total};

verus! {

broadcast use {
    vstd::seq_lib::group_to_multiset_ensures,
    vstd::multiset::group_multiset_axioms,
};

/// `k` copies of `x`.
pub open spec fn repeat(x: Element, k: int) -> Seq<Element> {
    Seq::new(k as nat, |j: int| x)
}

/// The ingredients that counts `c` pick from `b`: `c[i]` copies of `b[i]`
/// for each `i < n`, in order.
pub open spec fn picked(c: Seq<usize>, b: Seq<Element>, n: int) -> Seq<Element>
    decreases n,
{
    if n <= 0 {
        Seq::empty()
    } else {
        picked(c, b, n - 1) + repeat(b[n - 1], c[n - 1] as int)
    }
}

/// The sum of the first `n` counts.
pub open spec fn total(c: Seq<usize>, n: int) -> int
    decreases n,
{
    if n <= 0 { 0 } else { total(c, n - 1) + c[n - 1] }
}

/// The number that digits `s` write in base `b`, least significant first.
pub open spec fn digits_value(s: Seq<usize>, b: int) -> int
    decreases s.len(),
{
    if s.len() == 0 { 0 } else { s[0] + b * digits_value(s.drop_first(), b) }
}

/// The first of the first `n` counts, from `i` on, that is below `m`; `n` when
/// there is none.
pub open spec fn carry_from(c: Seq<usize>, i: int, n: int, m: int) -> int
    decreases n - i,
{
    if i >= n {
        n
    } else if c[i] < m {
        i
    } else {
        carry_from(c, i + 1, n, m)
    }
}

/// The counts after one step of the search over the first `n` counts, each
/// from 0 to `m`, counted like an odometer with the first count turning
/// fastest, and whether the search goes on. The step that would turn the
/// last count past `m` ends the search and leaves that count at `m + 1`.
pub open spec fn next_counts(c: Seq<usize>, n: int, m: int) -> (bool, Seq<usize>) {
    if n <= 0 {
        (true, c)
    } else {
        let p = carry_from(c, 0, n, m);
        if p < n {
            (true, Seq::new(c.len(), |j: int| if j < p { 0 } else if j == p { (c[p] + 1) as usize } else { c[j] }))
        } else {
            (false, Seq::new(c.len(), |j: int| if j < n - 1 { 0 } else if j == n - 1 { (m + 1) as usize } else { c[j] }))
        }
    }
}

/// The search for unknown recipes: every combination of up to `max_per`
/// copies of each element of `bruteforcing`, tried when it has
/// `ingredient_count` ingredients in all.
pub struct RecipeSearch {
    bruteforcing: Vec<Element>,
    ingredient_count: usize,
    max_per: usize,
    /// How many copies of each element of `bruteforcing` the current combination takes.
    counts: Vec<usize>,
    /// How many new combinations have been tried.
    tried: usize,
}

/// Twenty-one zero counts.
fn zero_counts() -> (c: Vec<usize>)
    ensures
        c@ == Seq::new(ELEMENT_COUNT as nat, |j: int| 0usize),
{
    let c: Vec<usize> = vec![0, 0, 0, 0, 0, 0, 0, 0, 0, 0, 0, 0, 0, 0, 0, 0, 0, 0, 0, 0, 0];
    proof {
        assert(c@ =~= Seq::new(ELEMENT_COUNT as nat, |j: int| 0usize));
    }
    c
}

impl RecipeSearch {
    /// A count per element, at most 21 elements searched, room to count one
    /// past `max_per`, and no count further than that.
    #[verifier::type_invariant]
    spec fn shape(&self) -> bool {
        &&& self.counts@.len() == ELEMENT_COUNT
        &&& self.bruteforcing@.len() <= ELEMENT_COUNT
        &&& self.max_per < usize::MAX
        &&& forall|j: int| 0 <= j < ELEMENT_COUNT ==> #[trigger] self.counts@[j] <= self.max_per + 1
    }

    /// The elements searched over.
    pub closed spec fn elements(&self) -> Seq<Element> {
        self.bruteforcing@
    }

    /// How many ingredients a combination must have to be tried.
    pub closed spec fn target(&self) -> usize {
        self.ingredient_count
    }

    /// The most copies of one element in a combination.
    pub closed spec fn bound(&self) -> usize {
        self.max_per
    }

    /// The counts of the current combination, one per element.
    pub closed spec fn current(&self) -> Seq<usize> {
        self.counts@
    }

    /// How many new combinations have been tried.
    pub closed spec fn tried_so_far(&self) -> usize {
        self.tried
    }

    /// The search can step on: every count is within `0..=bound`.
    pub closed spec fn in_range(&self) -> bool {
        forall|j: int| 0 <= j < ELEMENT_COUNT ==> #[trigger] self.counts@[j] <= self.max_per
    }

    /// A search from the combination with no ingredients.
    pub fn new(bruteforcing: Vec<Element>, ingredient_count: usize, max_per: usize) -> (s: RecipeSearch)
        requires
            bruteforcing@.len() <= ELEMENT_COUNT,
            max_per < usize::MAX,
        ensures
            s.in_range(),
            s.elements() == bruteforcing@,
            s.target() == ingredient_count,
            s.bound() == max_per,
            s.current() == Seq::new(ELEMENT_COUNT as nat, |j: int| 0usize),
            s.tried_so_far() == 0,
    {
        let counts = zero_counts();
        RecipeSearch { bruteforcing, ingredient_count, max_per, counts, tried: 0 }
    }

    /// The counts of the current combination, one per element.
    pub fn counts(&self) -> (c: &Vec<usize>)
        ensures
            c@ == self.current(),
            c@.len() == ELEMENT_COUNT,
    {
        proof {
            use_type_invariant(self);
        }
        &self.counts
    }

    /// How many new combinations have been tried.
    pub fn tried(&self) -> (t: usize)
        ensures
            t == self.tried_so_far(),
    {
        self.tried
    }

    /// How many ingredients the current combination has.
    pub fn total_count(&self) -> (t: u128)
        ensures
            t == total(self.current(), ELEMENT_COUNT as int),
    {
        proof {
            use_type_invariant(self);
        }
        let mut acc: u128 = 0;
        let mut i: usize = 0;
        while i < self.counts.len()
            invariant
                self.counts@.len() == ELEMENT_COUNT,
                0 <= i <= ELEMENT_COUNT,
                acc == total(self.counts@, i as int),
                acc <= i * 0xffff_ffff_ffff_ffffu128,
            decreases ELEMENT_COUNT - i,
        {
            acc = acc + self.counts[i] as u128;
            i = i + 1;
        }
        acc
    }

    /// The current combination: `counts[i]` copies of `bruteforcing[i]`, in order.
    pub fn ingredients(&self) -> (v: Vec<Element>)
        ensures
            v@ == picked(self.current(), self.elements(), self.elements().len() as int),
    {
        proof {
            use_type_invariant(self);
        }
        let mut v: Vec<Element> = Vec::new();
        let mut i: usize = 0;
        while i < self.bruteforcing.len()
            invariant
                self.counts@.len() == ELEMENT_COUNT,
                self.bruteforcing@.len() <= ELEMENT_COUNT,
                0 <= i <= self.bruteforcing@.len(),
                v@ == picked(self.counts@, self.bruteforcing@, i as int),
            decreases self.bruteforcing@.len() - i,
        {
            let x = self.bruteforcing[i];
            let k = self.counts[i];
            let ghost base = v@;
            let mut j: usize = 0;
            while j < k
                invariant
                    0 <= j <= k,
                    v@ == base + repeat(x, j as int),
                decreases k - j,
            {
                v.push(x);
                j = j + 1;
                proof {
                    assert(v@ =~= base + repeat(x, j as int));
                }
            }
            i = i + 1;
        }
        v
    }

    /// The combination to try now, when it has `ingredient_count` ingredients.
    pub fn candidate(&self) -> (r: Option<Vec<Element>>)
        ensures
            match r {
                Some(v) => total(self.current(), ELEMENT_COUNT as int) == self.target()
                    && v@ == picked(self.current(), self.elements(), self.elements().len() as int),
                None => total(self.current(), ELEMENT_COUNT as int) != self.target(),
            },
    {
        if self.total_count() == self.ingredient_count as u128 {
            Some(self.ingredients())
        } else {
            None
        }
    }

    /// One more new combination has been tried; says whether the record of
    /// tried combinations is due to be saved (every tenth).
    pub fn note_tried(&mut self) -> (save: bool)
        requires
            old(self).tried_so_far() < usize::MAX,
        ensures
            final(self).tried_so_far() == old(self).tried_so_far() + 1,
            save == (final(self).tried_so_far() % 10 == 0),
            final(self).current() == old(self).current(),
            final(self).elements() == old(self).elements(),
            final(self).target() == old(self).target(),
            final(self).bound() == old(self).bound(),
            final(self).in_range() == old(self).in_range(),
    {
        proof {
            use_type_invariant(&*self);
        }
        self.tried = self.tried + 1;
        self.tried % 10 == 0
    }

    /// Steps to the next combination; `false` when every combination has
    /// been gone through.
    pub fn advance(&mut self) -> (go_on: bool)
        requires
            old(self).in_range(),
        ensures
            (go_on, final(self).current()) == next_counts(
                old(self).current(),
                old(self).elements().len() as int,
                old(self).bound() as int,
            ),
            go_on ==> final(self).in_range(),
            final(self).elements() == old(self).elements(),
            final(self).target() == old(self).target(),
            final(self).bound() == old(self).bound(),
            final(self).tried_so_far() == old(self).tried_so_far(),
    {
        proof {
            use_type_invariant(&*self);
        }
        let n = self.bruteforcing.len();
        let m_exec = self.max_per;
        let mut c = zero_counts();
        std::mem::swap(&mut c, &mut self.counts);
        let ghost c0 = c@;
        let ghost m = m_exec as int;
        let mut i: usize = 0;
        while i < n
            invariant
                c0 == old(self).counts@,
                c0.len() == ELEMENT_COUNT,
                n == old(self).bruteforcing@.len(),
                self.bruteforcing == old(self).bruteforcing,
                self.ingredient_count == old(self).ingredient_count,
                self.max_per == old(self).max_per,
                self.tried == old(self).tried,
                old(self).max_per == m_exec,
                n <= ELEMENT_COUNT,
                m == m_exec,
                m_exec < usize::MAX,
                forall|j: int| 0 <= j < ELEMENT_COUNT ==> #[trigger] c0[j] <= m,
                0 <= i <= n,
                n == 0 || i < n,
                c@ == Seq::new(c0.len(), |j: int| if j < i { 0usize } else { c0[j] }),
                carry_from(c0, 0, n as int, m) == carry_from(c0, i as int, n as int, m),
            decreases n - i,
        {
            let v = c[i] + 1;
            if v > m_exec {
                if i == n - 1 {
                    c.set(i, v);
                    proof {
                        assert(carry_from(c0, i + 1, n as int, m) == n);
                        assert(c@ =~= next_counts(c0, n as int, m).1);
                        assert forall|j: int| 0 <= j < ELEMENT_COUNT implies #[trigger] c@[j] <= m + 1 by {
                            assert(c0[j] <= m);
                        }
                    }
                    self.counts = c;
                    return false;
                }
                c.set(i, 0);
                proof {
                    assert(c@ =~= Seq::new(c0.len(), |j: int| if j < i + 1 { 0usize } else { c0[j] }));
                }
            } else {
                c.set(i, v);
                proof {
                    assert(carry_from(c0, i as int, n as int, m) == i);
                    assert(c@ =~= next_counts(c0, n as int, m).1);
                    assert forall|j: int| 0 <= j < ELEMENT_COUNT implies #[trigger] c@[j] <= m by {
                        assert(c0[j] <= m);
                    }
                }
                self.counts = c;
                return true;
            }
            i = i + 1;
        }
        proof {
            assert(c@ =~= c0);
        }
        self.counts = c;
        true
    }
}


/// `b` to the power `e`.
pub open spec fn power(b: int, e: nat) -> int
    decreases e,
{
    if e == 0 { 1 } else { b * power(b, (e - 1) as nat) }
}

proof fn lemma_carry_from(c: Seq<usize>, i: int, n: int, m: int)
    requires
        0 <= i <= n,
    ensures
        i <= carry_from(c, i, n, m) <= n,
        forall|j: int| i <= j < carry_from(c, i, n, m) ==> c[j] >= m,
        carry_from(c, i, n, m) < n ==> c[carry_from(c, i, n, m)] < m,
    decreases n - i,
{
    if i < n && c[i] >= m {
        lemma_carry_from(c, i + 1, n, m);
    }
}

/// `s` with the digits below `p` turned to 0 and digit `p` one up.
pub open spec fn bumped(s: Seq<usize>, p: int) -> Seq<usize> {
    Seq::new(s.len(), |j: int| if j < p { 0 } else if j == p { (s[p] + 1) as usize } else { s[j] })
}

proof fn lemma_bumped_value(s: Seq<usize>, p: int, m: int)
    requires
        0 <= p < s.len(),
        0 <= m < usize::MAX,
        s[p] < m,
        forall|j: int| 0 <= j < p ==> s[j] == m,
    ensures
        digits_value(bumped(s, p), m + 1) == digits_value(s, m + 1) + 1,
    decreases p,
{
    let b = m + 1;
    let t = s.drop_first();
    if p == 0 {
        assert(bumped(s, p).drop_first() =~= t);
        assert(bumped(s, p)[0] == s[0] + 1);
    } else {
        assert(bumped(s, p).drop_first() =~= bumped(t, p - 1));
        assert(bumped(s, p)[0] == 0);
        lemma_bumped_value(t, p - 1, m);
        let v = digits_value(t, b);
        assert(b * (v + 1) == b * v + b) by (nonlinear_arith);
    }
}

proof fn lemma_top_value(s: Seq<usize>, m: int)
    requires
        0 <= m,
        forall|j: int| 0 <= j < s.len() ==> s[j] <= m,
    ensures
        0 <= digits_value(s, m + 1) <= power(m + 1, s.len()) - 1,
        (forall|j: int| 0 <= j < s.len() ==> s[j] == m) ==> digits_value(s, m + 1) == power(m + 1, s.len()) - 1,
    decreases s.len(),
{
    if s.len() > 0 {
        let t = s.drop_first();
        let b = m + 1;
        lemma_top_value(t, m);
        let v = digits_value(t, b);
        let q = power(b, t.len());
        assert(power(b, s.len()) == b * q);
        assert(0 <= b * v <= b * (q - 1)) by (nonlinear_arith)
            requires
                0 <= v <= q - 1,
                b >= 1,
        ;
        assert(b * (q - 1) == b * q - b) by (nonlinear_arith);
    }
}

/// Law of the recipe search: each step counts the combination, read as a
/// number in base `max_per + 1` with the first count lowest, one up, and the
/// search ends exactly after the largest number, where every count is
/// `max_per`. Starting from all zeros, every combination is tried once.
pub proof fn lemma_advance_counts_up(c: Seq<usize>, n: int, m: int)
    requires
        0 < n <= c.len(),
        0 <= m < usize::MAX,
        forall|j: int| 0 <= j < n ==> #[trigger] c[j] <= m,
    ensures
        ({
            let r = next_counts(c, n, m);
            &&& r.0 ==> digits_value(r.1.subrange(0, n), m + 1) == digits_value(c.subrange(0, n), m + 1) + 1
            &&& r.0 ==> forall|j: int| 0 <= j < n ==> #[trigger] r.1[j] <= m
            &&& !r.0 ==> forall|j: int| 0 <= j < n ==> #[trigger] c[j] == m
            &&& !r.0 ==> digits_value(c.subrange(0, n), m + 1) == power(m + 1, n as nat) - 1
        }),
        0 <= digits_value(c.subrange(0, n), m + 1) <= power(m + 1, n as nat) - 1,
{
    let s = c.subrange(0, n);
    lemma_carry_from(c, 0, n, m);
    lemma_top_value(s, m);
    let p = carry_from(c, 0, n, m);
    let r = next_counts(c, n, m);
    if p < n {
        assert(r.1.subrange(0, n) =~= bumped(s, p));
        lemma_bumped_value(s, p, m);
    } else {
        assert forall|j: int| 0 <= j < s.len() implies s[j] == m by {
            assert(c[j] <= m);
        }
    }
}

/// The counts after `t` steps of the search from `c`.
pub open spec fn counts_after(c: Seq<usize>, n: int, m: int, t: nat) -> Seq<usize>
    decreases t,
{
    if t == 0 { c } else { next_counts(counts_after(c, n, m, (t - 1) as nat), n, m).1 }
}

/// All counts zero: where the search starts.
pub open spec fn zero_counts_spec() -> Seq<usize> {
    Seq::new(ELEMENT_COUNT as nat, |j: int| 0usize)
}

/// Digit sequences of the same length with digits below `b` and the same
/// value are the same.
proof fn lemma_digits_unique(u: Seq<usize>, v: Seq<usize>, m: int)
    requires
        0 <= m,
        u.len() == v.len(),
        forall|j: int| 0 <= j < u.len() ==> u[j] <= m,
        forall|j: int| 0 <= j < v.len() ==> v[j] <= m,
        digits_value(u, m + 1) == digits_value(v, m + 1),
    ensures
        u == v,
    decreases u.len(),
{
    if u.len() > 0 {
        let b = m + 1;
        let tu = u.drop_first();
        let tv = v.drop_first();
        lemma_top_value(tu, m);
        lemma_top_value(tv, m);
        let vu = digits_value(tu, b);
        let vv = digits_value(tv, b);
        let x = u[0] as int;
        let y = v[0] as int;
        assert(x == y && vu == vv) by (nonlinear_arith)
            requires
                x + b * vu == y + b * vv,
                0 <= x < b,
                0 <= y < b,
                0 <= vu,
                0 <= vv,
        {
            if vu > vv {
                assert(b * vu >= b * vv + b);
            } else if vv > vu {
                assert(b * vv >= b * vu + b);
            }
        }
        lemma_digits_unique(tu, tv, m);
        assert(u =~= seq![u[0]] + tu);
        assert(v =~= seq![v[0]] + tv);
    }
}

proof fn lemma_run_step(n: int, m: int, t: nat)
    requires
        0 < n <= ELEMENT_COUNT,
        0 <= m < usize::MAX,
        t < power(m + 1, n as nat),
    ensures
        ({
            let c = counts_after(zero_counts_spec(), n, m, t);
            &&& c.len() == ELEMENT_COUNT
            &&& forall|j: int| 0 <= j < n ==> #[trigger] c[j] <= m
            &&& digits_value(c.subrange(0, n), m + 1) == t
            &&& (next_counts(c, n, m).0 <==> t + 1 < power(m + 1, n as nat))
        }),
    decreases t,
{
    let c = counts_after(zero_counts_spec(), n, m, t);
    if t == 0 {
        let z = zero_counts_spec();
        assert forall|j: int| 0 <= j < n implies #[trigger] c[j] <= m by {}
        lemma_zero_value(z.subrange(0, n), m + 1);
    } else {
        lemma_run_step(n, m, (t - 1) as nat);
        let p = counts_after(zero_counts_spec(), n, m, (t - 1) as nat);
        lemma_advance_counts_up(p, n, m);
        assert(c == next_counts(p, n, m).1);
    }
    lemma_advance_counts_up(c, n, m);
    let r = next_counts(c, n, m);
    if r.0 {
        lemma_top_value(r.1.subrange(0, n), m);
    }
}

proof fn lemma_zero_value(s: Seq<usize>, b: int)
    requires
        forall|j: int| 0 <= j < s.len() ==> s[j] == 0,
    ensures
        digits_value(s, b) == 0,
    decreases s.len(),
{
    if s.len() > 0 {
        lemma_zero_value(s.drop_first(), b);
    }
}

/// Law of a whole search run over `n` elements with at most `m` copies each:
/// starting from all zeros, after `t` steps the counts read `t` in base
/// `m + 1`, so the combinations come in order and none comes twice; and the
/// search goes on exactly until the last one, `(m + 1)^n - 1`.
pub proof fn lemma_search_run(n: int, m: int)
    requires
        0 < n <= ELEMENT_COUNT,
        0 <= m < usize::MAX,
    ensures
        forall|t: nat| t < power(m + 1, n as nat) ==> {
            let c = #[trigger] counts_after(zero_counts_spec(), n, m, t);
            &&& digits_value(c.subrange(0, n), m + 1) == t
            &&& forall|j: int| 0 <= j < n ==> #[trigger] c[j] <= m
            &&& (next_counts(c, n, m).0 <==> t + 1 < power(m + 1, n as nat))
        },
{
    assert forall|t: nat| t < power(m + 1, n as nat) implies {
        let c = #[trigger] counts_after(zero_counts_spec(), n, m, t);
        &&& digits_value(c.subrange(0, n), m + 1) == t
        &&& forall|j: int| 0 <= j < n ==> #[trigger] c[j] <= m
        &&& (next_counts(c, n, m).0 <==> t + 1 < power(m + 1, n as nat))
    } by {
        lemma_run_step(n, m, t);
    }
}

/// Law of a whole search run, the other way: every combination of at most
/// `m` copies of each of `n` elements is reached, at the step that its value
/// in base `m + 1` names, before the search ends.
pub proof fn lemma_search_reaches(n: int, m: int, v: Seq<usize>)
    requires
        0 < n <= ELEMENT_COUNT,
        0 <= m < usize::MAX,
        v.len() == n,
        forall|j: int| 0 <= j < n ==> #[trigger] v[j] <= m,
    ensures
        0 <= digits_value(v, m + 1) < power(m + 1, n as nat),
        counts_after(zero_counts_spec(), n, m, digits_value(v, m + 1) as nat).subrange(0, n) == v,
{
    lemma_top_value(v, m);
    let t = digits_value(v, m + 1) as nat;
    lemma_run_step(n, m, t);
    let c = counts_after(zero_counts_spec(), n, m, t);
    assert forall|j: int| 0 <= j < n implies #[trigger] c.subrange(0, n)[j] <= m by {
        assert(c[j] <= m);
    }
    lemma_digits_unique(c.subrange(0, n), v, m);
}

/// The key of a combination: the names of its ingredients in ascending order,
/// written one after the other.
pub open spec fn recipe_key(ingredients: Seq<Element>) -> Seq<char> {
    sorted_concat(element_names(ingredients))
}

/// The key under which a combination is recorded as tried.
pub fn recipe_id(ingredients: &Vec<Element>) -> (id: String)
    ensures
        id@ == recipe_key(ingredients@),
{
    let names = craft_args(ingredients);
    concat_sorted(names)
}

proof fn lemma_names_multiset(a: Seq<Element>, b: Seq<Element>)
    requires
        a.to_multiset() == b.to_multiset(),
    ensures
        element_names(a).to_multiset() == element_names(b).to_multiset(),
    decreases a.len(),
{
    if a.len() == 0 {
        a.to_multiset_ensures();
        b.to_multiset_ensures();
        assert(b.len() == 0);
        assert(element_names(a) =~= element_names(b));
    } else {
        let x = a[0];
        assert(a.to_multiset().count(x) > 0);
        assert(b.contains(x));
        let k = choose|k: int| 0 <= k < b.len() && b[k] == x;
        assert(a.drop_first() =~= a.remove(0));
        assert(a.drop_first().to_multiset() == b.remove(k).to_multiset());
        lemma_names_multiset(a.drop_first(), b.remove(k));
        assert(element_names(a.drop_first()) =~= element_names(a).remove(0));
        assert(element_names(b.remove(k)) =~= element_names(b).remove(k));
        let na = element_names(a).to_multiset();
        let nb = element_names(b).to_multiset();
        assert(na.remove(element_name(x)) =~= nb.remove(element_name(x)));
        assert(na.count(element_name(x)) > 0) by {
            assert(element_names(a)[0] == element_name(x));
        }
        assert(nb.count(element_name(x)) > 0) by {
            assert(element_names(b)[k] == element_name(x));
        }
        assert forall|y: Seq<char>| na.count(y) == nb.count(y) by {
            if y == element_name(x) {
                assert(na.remove(element_name(x)).count(y) == na.count(y) - 1);
                assert(nb.remove(element_name(x)).count(y) == nb.count(y) - 1);
            } else {
                assert(na.remove(element_name(x)).count(y) == na.count(y));
                assert(nb.remove(element_name(x)).count(y) == nb.count(y));
            }
        }
        assert(na =~= nb);
    }
}

/// Law of recipe keys: the key of a combination does not depend on the order
/// of its ingredients.
pub proof fn lemma_recipe_key_ignores_order(a: Seq<Element>, b: Seq<Element>)
    requires
        a.to_multiset() == b.to_multiset(),
    ensures
        recipe_key(a) == recipe_key(b),
{
    lemma_names_multiset(a, b);
    let na = element_names(a);
    let nb = element_names(b);
    crate::text::lemma_text_order_total();
    na.lemma_sort_by_ensures(crate::text::text_order());
    nb.lemma_sort_by_ensures(crate::text::text_order());
    vstd::seq_lib::lemma_sorted_unique(na.sort_by(crate::text::text_order()), nb.sort_by(crate::text::text_order()), crate::text::text_order());
}


/// The texts of `s` without repeats, each where it first occurs.
pub open spec fn without_repeats(s: Seq<Seq<char>>) -> Seq<Seq<char>>
    decreases s.len(),
{
    if s.len() == 0 {
        Seq::empty()
    } else {
        let d = without_repeats(s.drop_last());
        if d.contains(s.last()) { d } else { d.push(s.last()) }
    }
}

/// The record kept as `without_repeats(s)` goes on being kept when `x` is
/// recorded: it gains `x` exactly when `x` is not in it.
pub proof fn lemma_without_repeats_push(s: Seq<Seq<char>>, x: Seq<char>)
    ensures
        without_repeats(s.push(x)) == (if without_repeats(s).contains(x) {
            without_repeats(s)
        } else {
            without_repeats(s).push(x)
        }),
{
    assert(s.push(x).drop_last() =~= s);
}

/// A key that can stand on a line of its own in the record's text: not
/// empty, without a line feed, not ending with a carriage return.
pub open spec fn is_record_line(k: Seq<char>) -> bool {
    &&& k.len() > 0
    &&& !k.contains('\n')
    &&& k.last() != '\r'
}

proof fn lemma_joined_letters(v: Seq<Seq<char>>)
    requires
        forall|i: int| 0 <= i < v.len() ==> is_plain_name(#[trigger] v[i]),
    ensures
        v.len() > 0 ==> joined(v, Seq::empty()).len() > 0,
        forall|k: int| 0 <= k < joined(v, Seq::empty()).len() ==> {
            let n = #[trigger] joined(v, Seq::empty())[k] as int;
            (65 <= n <= 90) || (97 <= n <= 122)
        },
    decreases v.len(),
{
    if v.len() > 1 {
        let w = v.drop_last();
        assert forall|i: int| 0 <= i < w.len() implies is_plain_name(#[trigger] w[i]) by {
            assert(w[i] == v[i]);
        }
        lemma_joined_letters(w);
        assert(is_plain_name(v[v.len() - 1]));
        let a = joined(w, Seq::empty());
        assert(joined(v, Seq::empty()) =~= a + v.last());
        assert forall|k: int| 0 <= k < joined(v, Seq::empty()).len() implies {
            let n = #[trigger] joined(v, Seq::empty())[k] as int;
            (65 <= n <= 90) || (97 <= n <= 122)
        } by {
            if k >= a.len() {
                assert(joined(v, Seq::empty())[k] == v.last()[k - a.len()]);
            } else {
                assert(joined(v, Seq::empty())[k] == a[k]);
            }
        }
    } else if v.len() == 1 {
        assert(is_plain_name(v[0]));
    }
}

/// Law of recipe keys: the key of a combination of at least one element is a
/// line of the record (element names are made of letters).
pub proof fn lemma_recipe_key_is_line(ingredients: Seq<Element>)
    requires
        ingredients.len() > 0,
    ensures
        is_record_line(recipe_key(ingredients)),
{
    let names = element_names(ingredients);
    lemma_text_order_total();
    names.lemma_sort_by_ensures(text_order());
    let sorted = names.sort_by(text_order());
    names.to_multiset_ensures();
    sorted.to_multiset_ensures();
    assert forall|i: int| 0 <= i < sorted.len() implies is_plain_name(#[trigger] sorted[i]) by {
        assert(sorted.to_multiset().count(sorted[i]) > 0);
        assert(names.contains(sorted[i]));
        let j = choose|j: int| 0 <= j < names.len() && names[j] == sorted[i];
        lemma_element_name_key(ingredients[j]);
    }
    assert(sorted.len() == names.len());
    lemma_joined_letters(sorted);
    let key = recipe_key(ingredients);
    assert(!key.contains('\n')) by {
        if key.contains('\n') {
            let k = choose|k: int| 0 <= k < key.len() && key[k] == '\n';
            assert(key[k] == joined(sorted, Seq::empty())[k]);
        }
    }
    assert(key.last() == key[key.len() - 1]);
}

proof fn lemma_without_repeats_distinct(v: Seq<Seq<char>>)
    requires
        v.no_duplicates(),
    ensures
        without_repeats(v) == v,
    decreases v.len(),
{
    if v.len() > 0 {
        let w = v.drop_last();
        assert(w.no_duplicates());
        lemma_without_repeats_distinct(w);
        assert(!w.contains(v.last())) by {
            if w.contains(v.last()) {
                let k = choose|k: int| 0 <= k < w.len() && w[k] == v.last();
                assert(v[k] == v[v.len() - 1]);
            }
        }
        assert(w.push(v.last()) =~= v);
    }
}

/// Law of the record of tried combinations: a record written out by
/// `to_text` and read back by `from_text` holds the same keys in the same
/// order, when each key is a record line (as the key of every combination of
/// at least one element is).
pub proof fn lemma_record_reads_back(keys: Seq<Seq<char>>)
    requires
        keys.no_duplicates(),
        forall|i: int| 0 <= i < keys.len() ==> is_record_line(#[trigger] keys[i]),
    ensures
        without_repeats(text_lines(joined(keys, seq!['\n']))) == keys,
{
    assert forall|i: int| 0 <= i < keys.len() implies (#[trigger] keys[i]).len() == 0 || keys[i].last() != '\r' by {
        assert(is_record_line(keys[i]));
    }
    if keys.len() > 0 {
        assert(is_record_line(keys[keys.len() - 1]));
    }
    lemma_lines_of_joined(keys);
    lemma_without_repeats_distinct(keys);
}

/// The keys of the combinations already tried, in the order they were
/// first recorded, each once.
pub struct TriedRecipes {
    ids: Vec<String>,
}

impl TriedRecipes {
    /// No key is recorded twice.
    #[verifier::type_invariant]
    spec fn distinct(&self) -> bool {
        texts(self.ids@).no_duplicates()
    }

    /// The recorded keys.
    pub closed spec fn keys(&self) -> Seq<Seq<char>> {
        texts(self.ids@)
    }

    /// No combination tried yet.
    pub fn new() -> (t: TriedRecipes)
        ensures
            t.keys() == Seq::<Seq<char>>::empty(),
    {
        let t = TriedRecipes { ids: Vec::new() };
        proof {
            assert(t.keys() =~= Seq::<Seq<char>>::empty());
        }
        t
    }

    /// Whether `id` is recorded.
    pub fn contains(&self, id: &str) -> (b: bool)
        ensures
            b == self.keys().contains(id@),
    {
        let mut i: usize = 0;
        while i < self.ids.len()
            invariant
                0 <= i <= self.ids.len(),
                forall|j: int| 0 <= j < i ==> texts(self.ids@)[j] != id@,
            decreases self.ids.len() - i,
        {
            if same_text(self.ids[i].as_str(), id) {
                proof {
                    assert(texts(self.ids@)[i as int] == id@);
                }
                return true;
            }
            i = i + 1;
        }
        false
    }

    /// Records `id`; `true` when it was not recorded before, that is, when the
    /// combination is new and is to be tried. A record that keeps the first
    /// occurrence of each key of `s` then keeps those of `s` followed by `id`.
    pub fn insert(&mut self, id: String) -> (fresh: bool)
        ensures
            fresh == !old(self).keys().contains(id@),
            final(self).keys() == (if fresh { old(self).keys().push(id@) } else { old(self).keys() }),
            final(self).keys().no_duplicates(),
            forall|s: Seq<Seq<char>>| old(self).keys() == without_repeats(s)
                ==> final(self).keys() == #[trigger] without_repeats(s.push(id@)),
    {
        proof {
            use_type_invariant(&*self);
        }
        if self.contains(id.as_str()) {
            proof {
                assert forall|s: Seq<Seq<char>>| old(self).keys() == without_repeats(s)
                    implies self.keys() == #[trigger] without_repeats(s.push(id@)) by {
                    lemma_without_repeats_push(s, id@);
                }
            }
            return false;
        }
        let ghost before = self.keys();
        let mut ids: Vec<String> = Vec::new();
        std::mem::swap(&mut ids, &mut self.ids);
        let ghost idv = id@;
        ids.push(id);
        proof {
            assert(texts(ids@) =~= before.push(idv));
            assert(texts(ids@).no_duplicates());
        }
        self.ids = ids;
        proof {
            assert forall|s: Seq<Seq<char>>| before == without_repeats(s)
                implies self.keys() == #[trigger] without_repeats(s.push(idv)) by {
                lemma_without_repeats_push(s, idv);
            }
        }
        true
    }

    /// The record as a text: the keys, one per line, in the order they were
    /// recorded, none twice.
    pub fn to_text(&self) -> (s: String)
        ensures
            s@ == joined(self.keys(), seq!['\n']),
            self.keys().no_duplicates(),
    {
        proof {
            use_type_invariant(self);
        }
        let sep = "\n";
        proof {
            reveal_strlit("\n");
            assert(sep@ =~= seq!['\n']);
        }
        join_with(&self.ids, sep)
    }

    /// The record that a text holds: each of its lines (as `str::lines`
    /// splits it) is a key; repeated lines count once.
    pub fn from_text(text: &str) -> (t: TriedRecipes)
        ensures
            t.keys() == without_repeats(text_lines(text@)),
    {
        let lines = split_lines(text);
        let mut t = TriedRecipes::new();
        let mut i: usize = 0;
        proof {
            assert(texts(lines@).subrange(0, 0) =~= Seq::<Seq<char>>::empty());
        }
        while i < lines.len()
            invariant
                0 <= i <= lines.len(),
                texts(lines@) == text_lines(text@),
                t.keys() == without_repeats(texts(lines@).subrange(0, i as int)),
            decreases lines.len() - i,
        {
            proof {
                let l = texts(lines@);
                assert(l.subrange(0, i + 1) =~= l.subrange(0, i as int).push(lines@[i as int]@));
            }
            let line = lines[i].clone();
            t.insert(line);
            i = i + 1;
        }
        proof {
            assert(texts(lines@).subrange(0, i as int) =~= texts(lines@));
        }
        t
    }
}

} // verus!

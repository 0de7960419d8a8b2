//! The assignment problem: which resource serves which usage.
use vstd::prelude::*;
use std::collections::HashMap;
use crate::models::{Cooldown, CooldownUsage, strings_view};

verus! {

broadcast use vstd::std_specs::hash::group_hash_axioms;

pub open spec fn shares_tag(a: Seq<Seq<char>>, b: Seq<Seq<char>>) -> bool {
    exists|x: int, y: int| 0 <= x < a.len() && 0 <= y < b.len() && a[x] == b[y]
}

/// Resource `j` may serve usage `i`: their tag sets meet.
pub open spec fn eligible(us: Seq<CooldownUsage>, cs: Seq<Cooldown>, i: int, j: int) -> bool {
    shares_tag(strings_view(us[i].group_names@), strings_view(cs[j].group_names@))
}

pub open spec fn gap(us: Seq<CooldownUsage>, i: int, k: int) -> int {
    if us[i].at >= us[k].at {
        us[i].at - us[k].at
    } else {
        us[k].at - us[i].at
    }
}

/// Usages `i` and `k` are too close together to share a resource that needs `w` seconds.
pub open spec fn too_close(us: Seq<CooldownUsage>, w: u64, i: int, k: int) -> bool {
    gap(us, i, k) < w
}

/// Every served usage is served by an eligible resource, and no resource
/// serves two usages closer together than its recharge interval.
pub open spec fn respects(us: Seq<CooldownUsage>, cs: Seq<Cooldown>, a: Seq<Option<usize>>) -> bool {
    &&& a.len() <= us.len()
    &&& forall|i: int|
        0 <= i < a.len() && #[trigger] a[i] is Some ==> a[i]->0 < cs.len() && eligible(
            us,
            cs,
            i,
            a[i]->0 as int,
        )
    &&& forall|i: int, k: int|
        0 <= i < k < a.len() && #[trigger] a[i] is Some && #[trigger] a[k] == a[i] ==> !too_close(
            us,
            cs[a[i]->0 as int].cooldown,
            i,
            k,
        )
}

/// An assignment of every usage, possibly to no resource, that meets the constraints.
pub open spec fn feasible(us: Seq<CooldownUsage>, cs: Seq<Cooldown>, a: Seq<Option<usize>>) -> bool {
    a.len() == us.len() && respects(us, cs, a)
}

/// The summed value of the usages that `a` serves.
pub open spec fn total_value(us: Seq<CooldownUsage>, a: Seq<Option<usize>>) -> int
    decreases a.len(),
{
    if a.len() == 0 {
        0
    } else {
        total_value(us, a.drop_last()) + if a.last() is Some {
            us[a.len() - 1].value as int
        } else {
            0
        }
    }
}

/// No usage before `i` in `p` holds resource `j` too close to usage `i`.
pub open spec fn free_for(
    us: Seq<CooldownUsage>,
    cs: Seq<Cooldown>,
    p: Seq<Option<usize>>,
    i: int,
    j: int,
) -> bool {
    forall|k: int|
        0 <= k < p.len() && #[trigger] p[k] == Some(j as usize) ==> !too_close(
            us,
            cs[j].cooldown,
            k,
            i,
        )
}

/// The first resource from `j` on that may serve usage `i` after the choices `p`.
pub open spec fn greedy_pick(
    us: Seq<CooldownUsage>,
    cs: Seq<Cooldown>,
    p: Seq<Option<usize>>,
    i: int,
    j: int,
) -> Option<usize>
    decreases cs.len() - j,
{
    if j < 0 || j >= cs.len() {
        None
    } else if eligible(us, cs, i, j) && free_for(us, cs, p, i, j) {
        Some(j as usize)
    } else {
        greedy_pick(us, cs, p, i, j + 1)
    }
}

/// Usage `a` comes before usage `b` in time order: earlier, or as early and
/// earlier in the document.
pub open spec fn key_lt(us: Seq<CooldownUsage>, a: int, b: int) -> bool {
    us[a].at < us[b].at || (us[a].at == us[b].at && a < b)
}

/// `ord` with `i` put in place: after the entries before it in time order.
pub open spec fn insert_sorted(us: Seq<CooldownUsage>, ord: Seq<usize>, i: usize) -> Seq<usize>
    decreases ord.len(),
{
    if ord.len() == 0 {
        seq![i]
    } else if key_lt(us, ord.last() as int, i as int) {
        ord.push(i)
    } else {
        insert_sorted(us, ord.drop_last(), i).push(ord.last())
    }
}

/// The first `n` usages, earliest first; ties go by document order.
pub open spec fn time_order(us: Seq<CooldownUsage>, n: int) -> Seq<usize>
    decreases n,
{
    if n <= 0 {
        Seq::empty()
    } else {
        insert_sorted(us, time_order(us, n - 1), (n - 1) as usize)
    }
}

/// The first `t` steps of the baseline over the visiting order `ord`: each
/// visited usage gets the first resource that may serve it.
pub open spec fn greedy_in(
    us: Seq<CooldownUsage>,
    cs: Seq<Cooldown>,
    ord: Seq<usize>,
    t: int,
) -> Seq<Option<usize>>
    decreases t,
{
    if t <= 0 {
        unserved(us.len() as int)
    } else {
        let a = greedy_in(us, cs, ord, t - 1);
        let i = ord[t - 1] as int;
        a.update(i, greedy_pick(us, cs, a, i, 0))
    }
}

/// The baseline: usages earliest first, each given the first resource (lowest
/// index) that may serve it next to the usages served before it.
pub open spec fn greedy(us: Seq<CooldownUsage>, cs: Seq<Cooldown>) -> Seq<Option<usize>> {
    greedy_in(us, cs, time_order(us, us.len() as int), us.len() as int)
}

pub open spec fn unserved(n: int) -> Seq<Option<usize>> {
    Seq::new(n as nat, |i: int| None::<usize>)
}

/// What the library settles on, given what the outside solver returned: nothing
/// when it failed; its answer when that is feasible and worth at least the
/// baseline; the baseline otherwise.
pub open spec fn chosen(
    us: Seq<CooldownUsage>,
    cs: Seq<Cooldown>,
    solved: Option<Seq<Option<usize>>>,
) -> Seq<Option<usize>> {
    let g = greedy(us, cs);
    match solved {
        None => unserved(us.len() as int),
        Some(s) => if feasible(us, cs, s) && total_value(us, s) >= total_value(us, g) {
            s
        } else {
            g
        },
    }
}

pub proof fn lemma_greedy_pick(
    us: Seq<CooldownUsage>,
    cs: Seq<Cooldown>,
    p: Seq<Option<usize>>,
    i: int,
    j: int,
)
    requires
        cs.len() <= usize::MAX,
    ensures
        match greedy_pick(us, cs, p, i, j) {
            Some(r) => 0 <= j <= r < cs.len() && eligible(us, cs, i, r as int) && free_for(
                us,
                cs,
                p,
                i,
                r as int,
            ),
            None => true,
        },
    decreases cs.len() - j,
{
    if !(j < 0 || j >= cs.len()) && !(eligible(us, cs, i, j) && free_for(us, cs, p, i, j)) {
        lemma_greedy_pick(us, cs, p, i, j + 1);
    }
}

pub proof fn lemma_insert_sorted(us: Seq<CooldownUsage>, ord: Seq<usize>, i: usize, n: int)
    requires
        i < n,
        forall|t: int| 0 <= t < ord.len() ==> #[trigger] ord[t] < n,
    ensures
        insert_sorted(us, ord, i).len() == ord.len() + 1,
        forall|t: int|
            0 <= t < insert_sorted(us, ord, i).len() ==> #[trigger] insert_sorted(us, ord, i)[t] < n,
    decreases ord.len(),
{
    if ord.len() > 0 && !key_lt(us, ord.last() as int, i as int) {
        lemma_insert_sorted(us, ord.drop_last(), i, n);
        let r = insert_sorted(us, ord, i);
        let q = insert_sorted(us, ord.drop_last(), i);
        assert forall|t: int| 0 <= t < r.len() implies #[trigger] r[t] < n by {
            if t < q.len() {
                assert(r[t] == q[t]);
            }
        }
    }
}

pub proof fn lemma_time_order(us: Seq<CooldownUsage>, n: int)
    requires
        0 <= n <= usize::MAX,
    ensures
        time_order(us, n).len() == n,
        forall|t: int| 0 <= t < n ==> #[trigger] time_order(us, n)[t] < n,
    decreases n,
{
    if n > 0 {
        lemma_time_order(us, n - 1);
        lemma_insert_sorted(us, time_order(us, n - 1), (n - 1) as usize, n);
    }
}

pub open spec fn sorted_by_time(us: Seq<CooldownUsage>, ord: Seq<usize>) -> bool {
    forall|a: int, b: int| 0 <= a < b < ord.len() ==> key_lt(us, #[trigger] ord[a] as int, #[trigger] ord[b] as int)
}

pub proof fn lemma_insert_members(us: Seq<CooldownUsage>, ord: Seq<usize>, i: usize)
    ensures
        forall|t: int|
            0 <= t < insert_sorted(us, ord, i).len() ==> #[trigger] insert_sorted(us, ord, i)[t] == i
                || ord.contains(insert_sorted(us, ord, i)[t]),
    decreases ord.len(),
{
    if ord.len() > 0 && !key_lt(us, ord.last() as int, i as int) {
        lemma_insert_members(us, ord.drop_last(), i);
        let q = insert_sorted(us, ord.drop_last(), i);
        let r = insert_sorted(us, ord, i);
        assert forall|t: int| 0 <= t < r.len() implies #[trigger] r[t] == i || ord.contains(r[t]) by {
            if t < q.len() {
                assert(r[t] == q[t]);
                if q[t] != i {
                    let x = choose|x: int| 0 <= x < ord.len() - 1 && ord.drop_last()[x] == q[t];
                    assert(ord[x] == q[t]);
                }
            } else {
                assert(r[t] == ord[ord.len() - 1]);
            }
        }
    } else if ord.len() > 0 {
        let r = insert_sorted(us, ord, i);
        assert forall|t: int| 0 <= t < r.len() implies #[trigger] r[t] == i || ord.contains(r[t]) by {
            if t < ord.len() {
                assert(r[t] == ord[t]);
            }
        }
    }
}

pub proof fn lemma_insert_sorted_order(us: Seq<CooldownUsage>, ord: Seq<usize>, i: usize)
    requires
        sorted_by_time(us, ord),
        forall|t: int| 0 <= t < ord.len() ==> #[trigger] ord[t] < i,
    ensures
        sorted_by_time(us, insert_sorted(us, ord, i)),
    decreases ord.len(),
{
    if ord.len() > 0 {
        let last = ord.last();
        let r = insert_sorted(us, ord, i);
        if key_lt(us, last as int, i as int) {
            assert forall|a: int, b: int| 0 <= a < b < r.len() implies key_lt(us, #[trigger] r[a] as int, #[trigger] r[b] as int) by {
                if b == ord.len() {
                    if a < ord.len() - 1 {
                        assert(key_lt(us, ord[a] as int, ord[ord.len() - 1] as int));
                    }
                    assert(r[a] == ord[a]);
                } else {
                    assert(r[a] == ord[a] && r[b] == ord[b]);
                }
            }
        } else {
            assert(last < i);
            assert(key_lt(us, i as int, last as int));
            let init = ord.drop_last();
            assert forall|a: int, b: int| 0 <= a < b < init.len() implies key_lt(us, #[trigger] init[a] as int, #[trigger] init[b] as int) by {
                assert(init[a] == ord[a] && init[b] == ord[b]);
            }
            lemma_insert_sorted_order(us, init, i);
            lemma_insert_members(us, init, i);
            let q = insert_sorted(us, init, i);
            assert forall|a: int, b: int| 0 <= a < b < r.len() implies key_lt(us, #[trigger] r[a] as int, #[trigger] r[b] as int) by {
                if b == q.len() {
                    assert(r[a] == q[a]);
                    assert(r[b] == last);
                    if q[a] != i {
                        let x = choose|x: int| 0 <= x < init.len() && init[x] == q[a];
                        assert(ord[x] == q[a]);
                        assert(key_lt(us, ord[x] as int, ord[ord.len() - 1] as int));
                    }
                } else {
                    assert(r[a] == q[a] && r[b] == q[b]);
                }
            }
        }
    }
}

/// The baseline visits every usage once, earliest first, ties in document
/// order: its visiting order is strictly sorted by time, then position.
pub proof fn law_time_order_sorted(us: Seq<CooldownUsage>, n: int)
    requires
        0 <= n <= usize::MAX,
    ensures
        time_order(us, n).len() == n,
        forall|t: int| 0 <= t < n ==> #[trigger] time_order(us, n)[t] < n,
        sorted_by_time(us, time_order(us, n)),
    decreases n,
{
    lemma_time_order(us, n);
    if n > 0 {
        law_time_order_sorted(us, n - 1);
        let ord = time_order(us, n - 1);
        assert forall|t: int| 0 <= t < ord.len() implies #[trigger] ord[t] < (n - 1) as usize by {}
        lemma_insert_sorted_order(us, ord, (n - 1) as usize);
    }
}

pub proof fn lemma_greedy_respects(
    us: Seq<CooldownUsage>,
    cs: Seq<Cooldown>,
    ord: Seq<usize>,
    t: int,
)
    requires
        0 <= t <= ord.len(),
        forall|x: int| 0 <= x < ord.len() ==> #[trigger] ord[x] < us.len(),
        cs.len() <= usize::MAX,
    ensures
        greedy_in(us, cs, ord, t).len() == us.len(),
        respects(us, cs, greedy_in(us, cs, ord, t)),
    decreases t,
{
    if t > 0 {
        lemma_greedy_respects(us, cs, ord, t - 1);
        let p = greedy_in(us, cs, ord, t - 1);
        let idx = ord[t - 1] as int;
        let a = greedy_in(us, cs, ord, t);
        lemma_greedy_pick(us, cs, p, idx, 0);
        assert(a == p.update(idx, greedy_pick(us, cs, p, idx, 0)));
        assert forall|i: int, k: int|
            0 <= i < k < a.len() && #[trigger] a[i] is Some && #[trigger] a[k] == a[i] implies !too_close(
            us,
            cs[a[i]->0 as int].cooldown,
            i,
            k,
        ) by {
            if i != idx && k != idx {
                assert(a[i] == p[i] && a[k] == p[k]);
            } else if i == idx {
                assert(p[k] == a[k]);
                assert(!too_close(us, cs[a[i]->0 as int].cooldown, k, idx));
                assert(gap(us, k, idx) == gap(us, idx, k));
            } else {
                assert(p[i] == a[i]);
                assert(!too_close(us, cs[a[k]->0 as int].cooldown, i, idx));
            }
        }
        assert forall|i: int| 0 <= i < a.len() && #[trigger] a[i] is Some implies a[i]->0 < cs.len()
            && eligible(us, cs, i, a[i]->0 as int) by {
            if i != idx {
                assert(a[i] == p[i]);
            }
        }
    }
}

pub proof fn lemma_greedy_feasible(us: Seq<CooldownUsage>, cs: Seq<Cooldown>)
    requires
        us.len() <= usize::MAX,
        cs.len() <= usize::MAX,
    ensures
        feasible(us, cs, greedy(us, cs)),
{
    let n = us.len() as int;
    lemma_time_order(us, n);
    lemma_greedy_respects(us, cs, time_order(us, n), n);
}

pub open spec fn solved_view(o: Option<Vec<Option<usize>>>) -> Option<Seq<Option<usize>>> {
    match o {
        Some(v) => Some(v@),
        None => None,
    }
}

/// Whatever the outside solver returned, the plan the library settles on
/// serves each usage by an eligible resource, and never gives one resource
/// two usages closer together than its recharge interval.
pub proof fn law_plan_feasible(
    us: Seq<CooldownUsage>,
    cs: Seq<Cooldown>,
    solved: Option<Seq<Option<usize>>>,
)
    requires
        us.len() <= usize::MAX,
        cs.len() <= usize::MAX,
    ensures
        feasible(us, cs, chosen(us, cs, solved)),
{
    lemma_greedy_feasible(us, cs);
    let u = unserved(us.len() as int);
    assert(respects(us, cs, u));
}

/// When the outside solver answers, the plan is worth at least the greedy baseline.
pub proof fn law_plan_beats_baseline(
    us: Seq<CooldownUsage>,
    cs: Seq<Cooldown>,
    solved: Seq<Option<usize>>,
)
    ensures
        total_value(us, chosen(us, cs, Some(solved))) >= total_value(
            us,
            greedy(us, cs),
        ),
{
}

/// With no resources, every usage is left unserved.
pub proof fn law_no_resources_unserved(
    us: Seq<CooldownUsage>,
    cs: Seq<Cooldown>,
    solved: Option<Seq<Option<usize>>>,
)
    requires
        us.len() <= usize::MAX,
        cs.len() == 0,
    ensures
        forall|i: int| 0 <= i < us.len() ==> #[trigger] chosen(us, cs, solved)[i] is None,
{
    law_plan_feasible(us, cs, solved);
    let c = chosen(us, cs, solved);
    assert forall|i: int| 0 <= i < us.len() implies #[trigger] c[i] is None by {
        if c[i] is Some {
            assert(c[i]->0 < cs.len());
        }
    }
}

/// Two usages of positive value, closer together than the interval of the
/// one resource that may serve both: when the solver answers, exactly one of
/// them is served.
pub proof fn law_close_pair_one_served(
    us: Seq<CooldownUsage>,
    cs: Seq<Cooldown>,
    solved: Seq<Option<usize>>,
)
    requires
        us.len() == 2,
        cs.len() == 1,
        eligible(us, cs, 0, 0),
        eligible(us, cs, 1, 0),
        too_close(us, cs[0].cooldown, 0, 1),
        us[0].value > 0,
        us[1].value > 0,
    ensures
        (chosen(us, cs, Some(solved))[0] is Some) != (chosen(us, cs, Some(solved))[1] is Some),
{
    let c = chosen(us, cs, Some(solved));
    law_plan_feasible(us, cs, Some(solved));
    if c[0] is Some && c[1] is Some {
        assert(c[0]->0 < 1 && c[1]->0 < 1);
        assert(c[1] == c[0]);
    }
    if c[0] is None && c[1] is None {
        reveal_with_fuel(total_value, 3);
        assert(total_value(us, c) == 0);
        let ord = time_order(us, 2);
        law_time_order_sorted(us, 2);
        assert(key_lt(us, ord[0] as int, ord[1] as int));
        assert(ord[0] != ord[1]);
        let u = unserved(2);
        let i0 = ord[0] as int;
        assert(free_for(us, cs, u, i0, 0));
        assert(greedy_pick(us, cs, u, i0, 0) == Some(0usize));
        assert(greedy_in(us, cs, ord, 0) == u);
        let g1 = greedy_in(us, cs, ord, 1);
        assert(g1 == u.update(i0, Some(0usize)));
        let g = greedy(us, cs);
        assert(g == g1.update(ord[1] as int, greedy_pick(us, cs, g1, ord[1] as int, 0)));
        assert(g[i0] == Some(0usize));
        assert(total_value(us, g) > 0);
    }
}

/// The usages of one request and the resources that may serve them.
pub struct Schedule<'a> {
    pub usages: &'a [CooldownUsage],
    pub cooldowns: &'a [Cooldown],
}

impl<'a> Schedule<'a> {
    pub fn new(usages: &'a [CooldownUsage], cooldowns: &'a [Cooldown]) -> (r: Self)
        ensures
            r.usages@ == usages@,
            r.cooldowns@ == cooldowns@,
    {
        Schedule { usages, cooldowns }
    }

    /// Whether resource `j` may serve usage `i`.
    pub fn is_eligible(&self, i: usize, j: usize) -> (r: bool)
        requires
            i < self.usages.len(),
            j < self.cooldowns.len(),
        ensures
            r == eligible(self.usages@, self.cooldowns@, i as int, j as int),
    {
        let a = &self.usages[i].group_names;
        let b = &self.cooldowns[j].group_names;
        let ghost av = strings_view(a@);
        let ghost bv = strings_view(b@);
        let mut x: usize = 0;
        while x < a.len()
            invariant
                x <= a.len(),
                i < self.usages.len(),
                j < self.cooldowns.len(),
                av == strings_view(a@),
                bv == strings_view(b@),
                a == &self.usages@[i as int].group_names,
                b == &self.cooldowns@[j as int].group_names,
                forall|x2: int, y2: int| 0 <= x2 < x && 0 <= y2 < bv.len() ==> av[x2] != bv[y2],
            decreases a.len() - x,
        {
            let mut y: usize = 0;
            while y < b.len()
                invariant
                    x < a.len(),
                    y <= b.len(),
                    av == strings_view(a@),
                    bv == strings_view(b@),
                    forall|x2: int, y2: int| 0 <= x2 < x && 0 <= y2 < bv.len() ==> av[x2] != bv[y2],
                    forall|y2: int| 0 <= y2 < y ==> av[x as int] != bv[y2],
                    i < self.usages.len(),
                    j < self.cooldowns.len(),
                    a == &self.usages@[i as int].group_names,
                    b == &self.cooldowns@[j as int].group_names,
                decreases b.len() - y,
            {
                if a[x] == b[y] {
                    assert(av[x as int] == bv[y as int]);
                    assert(shares_tag(av, bv));
                    return true;
                }
                y += 1;
            }
            x += 1;
        }
        assert(!shares_tag(av, bv));
        false
    }

    /// For each usage, whether each resource may serve it.
    pub fn eligibility(&self) -> (r: Vec<Vec<bool>>)
        ensures
            r.len() == self.usages.len(),
            forall|i: int|
                0 <= i < r.len() ==> #[trigger] r[i].len() == self.cooldowns.len() && forall|j: int|
                    0 <= j < self.cooldowns.len() ==> #[trigger] r[i][j] == eligible(
                        self.usages@,
                        self.cooldowns@,
                        i,
                        j,
                    ),
    {
        let mut r: Vec<Vec<bool>> = Vec::new();
        let mut i: usize = 0;
        while i < self.usages.len()
            invariant
                i <= self.usages.len(),
                r.len() == i,
                forall|i2: int|
                    0 <= i2 < i ==> #[trigger] r[i2].len() == self.cooldowns.len() && forall|j: int|
                        0 <= j < self.cooldowns.len() ==> #[trigger] r[i2][j] == eligible(
                            self.usages@,
                            self.cooldowns@,
                            i2,
                            j,
                        ),
            decreases self.usages.len() - i,
        {
            let mut row: Vec<bool> = Vec::new();
            let mut j: usize = 0;
            while j < self.cooldowns.len()
                invariant
                    i < self.usages.len(),
                    j <= self.cooldowns.len(),
                    row.len() == j,
                    forall|j2: int|
                        0 <= j2 < j ==> #[trigger] row[j2] == eligible(
                            self.usages@,
                            self.cooldowns@,
                            i as int,
                            j2,
                        ),
                decreases self.cooldowns.len() - j,
            {
                let e = self.is_eligible(i, j);
                row.push(e);
                j += 1;
            }
            r.push(row);
            i += 1;
        }
        r
    }

    fn too_close_exec(&self, w: u64, i: usize, k: usize) -> (r: bool)
        requires
            i < self.usages.len(),
            k < self.usages.len(),
        ensures
            r == too_close(self.usages@, w, i as int, k as int),
    {
        let ti = self.usages[i].at;
        let tk = self.usages[k].at;
        let d = if ti >= tk {
            ti - tk
        } else {
            tk - ti
        };
        d < w
    }

    /// Every pair of usages `(i, k)`, `i < k`, that resource `j` cannot serve
    /// both: their times are closer together than `j`'s recharge interval.
    /// A choice of usages for `j` therefore meets "not both" on each listed
    /// pair exactly when no two chosen usages are too close together.
    pub fn recharge_conflicts(&self, j: usize) -> (r: Vec<(usize, usize)>)
        requires
            j < self.cooldowns.len(),
        ensures
            forall|t: int|
                0 <= t < r.len() ==> {
                    let (i, k) = #[trigger] r@[t];
                    &&& i < k < self.usages.len()
                    &&& too_close(self.usages@, self.cooldowns@[j as int].cooldown, i as int, k as int)
                },
            forall|i: int, k: int|
                0 <= i < k < self.usages.len() && too_close(
                    self.usages@,
                    self.cooldowns@[j as int].cooldown,
                    i,
                    k,
                ) ==> #[trigger] r@.contains((i as usize, k as usize)),
    {
        let w = self.cooldowns[j].cooldown;
        let n = self.usages.len();
        let mut r: Vec<(usize, usize)> = Vec::new();
        let mut i: usize = 0;
        while i < n
            invariant
                n == self.usages.len(),
                j < self.cooldowns.len(),
                w == self.cooldowns@[j as int].cooldown,
                i <= n,
                forall|t: int|
                    0 <= t < r.len() ==> {
                        let (i2, k2) = #[trigger] r@[t];
                        &&& i2 < k2 < n
                        &&& too_close(self.usages@, w, i2 as int, k2 as int)
                    },
                forall|i2: int, k2: int|
                    0 <= i2 < i && i2 < k2 < n && too_close(self.usages@, w, i2, k2)
                        ==> #[trigger] r@.contains((i2 as usize, k2 as usize)),
            decreases n - i,
        {
            let mut k = i + 1;
            while k < n
                invariant
                    n == self.usages.len(),
                    j < self.cooldowns.len(),
                    w == self.cooldowns@[j as int].cooldown,
                    i < n,
                    i < k <= n,
                    forall|t: int|
                        0 <= t < r.len() ==> {
                            let (i2, k2) = #[trigger] r@[t];
                            &&& i2 < k2 < n
                            &&& too_close(self.usages@, w, i2 as int, k2 as int)
                        },
                    forall|i2: int, k2: int|
                        0 <= i2 && i2 < k2 < n && (i2 < i || (i2 == i && k2 < k)) && too_close(
                            self.usages@,
                            w,
                            i2,
                            k2,
                        ) ==> #[trigger] r@.contains((i2 as usize, k2 as usize)),
                decreases n - k,
            {
                if self.too_close_exec(w, i, k) {
                    let ghost old_r = r@;
                    r.push((i, k));
                    proof {
                        assert(r@[r@.len() - 1] == (i, k));
                        assert forall|i2: int, k2: int|
                            0 <= i2 && i2 < k2 < n && (i2 < i || (i2 == i && k2 < k + 1))
                                && too_close(self.usages@, w, i2, k2) implies #[trigger] r@.contains(
                            (i2 as usize, k2 as usize),
                        ) by {
                            if !(i2 == i && k2 == k) {
                                assert(old_r.contains((i2 as usize, k2 as usize)));
                                let t = choose|t: int|
                                    0 <= t < old_r.len() && old_r[t] == (i2 as usize, k2 as usize);
                                assert(r@[t] == old_r[t]);
                            }
                        }
                    }
                }
                k += 1;
            }
            i += 1;
        }
        r
    }

    fn is_free(&self, a: &Vec<Option<usize>>, i: usize, j: usize) -> (r: bool)
        requires
            i < self.usages.len(),
            a.len() <= self.usages.len(),
            j < self.cooldowns.len(),
        ensures
            r == free_for(self.usages@, self.cooldowns@, a@, i as int, j as int),
    {
        let w = self.cooldowns[j].cooldown;
        let mut k: usize = 0;
        while k < a.len()
            invariant
                k <= a.len() <= self.usages.len(),
                i < self.usages.len(),
                j < self.cooldowns.len(),
                w == self.cooldowns@[j as int].cooldown,
                forall|k2: int|
                    0 <= k2 < k && #[trigger] a@[k2] == Some(j) ==> !too_close(
                        self.usages@,
                        w,
                        k2,
                        i as int,
                    ),
            decreases a.len() - k,
        {
            let same = match a[k] {
                Some(x) => x == j,
                None => false,
            };
            if same && self.too_close_exec(w, k, i) {
                assert(a@[k as int] == Some(j));
                return false;
            }
            k += 1;
        }
        true
    }

    fn key_lt_exec(&self, a: usize, b: usize) -> (r: bool)
        requires
            a < self.usages.len(),
            b < self.usages.len(),
        ensures
            r == key_lt(self.usages@, a as int, b as int),
    {
        let ta = self.usages[a].at;
        let tb = self.usages[b].at;
        ta < tb || (ta == tb && a < b)
    }

    fn insert_sorted_exec(&self, ord: &Vec<usize>, i: usize) -> (r: Vec<usize>)
        requires
            i < self.usages.len(),
            forall|t: int| 0 <= t < ord.len() ==> #[trigger] ord@[t] < self.usages.len(),
        ensures
            r@ == insert_sorted(self.usages@, ord@, i),
    {
        let ghost us = self.usages@;
        let mut p = ord.len();
        assert(ord@.take(p as int) =~= ord@);
        assert(insert_sorted(us, ord@, i) =~= insert_sorted(us, ord@.take(p as int), i) + ord@.skip(
            p as int,
        ));
        while p > 0 && !self.key_lt_exec(ord[p - 1], i)
            invariant
                us == self.usages@,
                i < self.usages.len(),
                forall|t: int| 0 <= t < ord.len() ==> #[trigger] ord@[t] < self.usages.len(),
                p <= ord.len(),
                insert_sorted(us, ord@, i) == insert_sorted(us, ord@.take(p as int), i) + ord@.skip(
                    p as int,
                ),
            decreases p,
        {
            let ghost q = ord@.take(p as int);
            assert(q.drop_last() =~= ord@.take(p - 1));
            assert(q.last() == ord@[p - 1]);
            assert(insert_sorted(us, q, i) == insert_sorted(us, ord@.take(p - 1), i).push(ord@[p - 1]));
            assert(insert_sorted(us, ord@.take(p - 1), i).push(ord@[p - 1]) + ord@.skip(p as int)
                =~= insert_sorted(us, ord@.take(p - 1), i) + ord@.skip(p - 1));
            p -= 1;
        }
        if p == 0 {
            assert(ord@.take(0) =~= Seq::<usize>::empty());
        }
        let mut r: Vec<usize> = Vec::new();
        let mut k: usize = 0;
        while k < p
            invariant
                p <= ord.len(),
                k <= p,
                r@ == ord@.take(k as int),
            decreases p - k,
        {
            r.push(ord[k]);
            assert(r@ =~= ord@.take(k + 1));
            k += 1;
        }
        r.push(i);
        let ghost mid = r@;
        while k < ord.len()
            invariant
                p <= k <= ord.len(),
                r@ == mid + ord@.subrange(p as int, k as int),
            decreases ord.len() - k,
        {
            r.push(ord[k]);
            assert(r@ =~= mid + ord@.subrange(p as int, k + 1));
            k += 1;
        }
        assert(r@ =~= ord@.take(p as int).push(i) + ord@.skip(p as int));
        r
    }

    /// The usages in time order: earliest first, ties by document order.
    pub fn time_order(&self) -> (r: Vec<usize>)
        ensures
            r@ == time_order(self.usages@, self.usages@.len() as int),
            r.len() == self.usages.len(),
            sorted_by_time(self.usages@, r@),
    {
        proof {
            assert(self.usages@.len() == self.usages.len());
            law_time_order_sorted(self.usages@, self.usages@.len() as int);
        }
        let n = self.usages.len();
        let mut ord: Vec<usize> = Vec::new();
        let mut i: usize = 0;
        while i < n
            invariant
                n == self.usages.len(),
                i <= n,
                ord@ == time_order(self.usages@, i as int),
            decreases n - i,
        {
            proof {
                lemma_time_order(self.usages@, i as int);
                assert forall|t: int| 0 <= t < ord.len() implies #[trigger] ord@[t] < self.usages.len() by {
                    assert(ord@[t] < i);
                }
            }
            ord = self.insert_sorted_exec(&ord, i);
            i += 1;
        }
        ord
    }

    /// The greedy baseline: usages earliest first, each given the first
    /// resource (lowest index) that may serve it next to those already served.
    pub fn greedy(&self) -> (r: Vec<Option<usize>>)
        ensures
            r@ == greedy(self.usages@, self.cooldowns@),
            feasible(self.usages@, self.cooldowns@, r@),
    {
        let ghost us = self.usages@;
        let ghost cs = self.cooldowns@;
        let n = self.usages.len();
        let m = self.cooldowns.len();
        let ord = self.time_order();
        proof {
            lemma_time_order(us, n as int);
            lemma_greedy_feasible(us, cs);
        }
        let mut a: Vec<Option<usize>> = Vec::new();
        let mut i: usize = 0;
        while i < n
            invariant
                i <= n,
                a@ == unserved(i as int),
            decreases n - i,
        {
            a.push(None);
            assert(a@ =~= unserved(i + 1));
            i += 1;
        }
        let mut t: usize = 0;
        while t < n
            invariant
                n == self.usages.len(),
                m == self.cooldowns.len(),
                us == self.usages@,
                cs == self.cooldowns@,
                ord@ == time_order(us, n as int),
                ord.len() == n,
                forall|x: int| 0 <= x < n ==> #[trigger] ord@[x] < n,
                t <= n,
                a@ == greedy_in(us, cs, ord@, t as int),
                a.len() == n,
            decreases n - t,
        {
            let i = ord[t];
            assert(i < n);
            let mut pick: Option<usize> = None;
            let mut j: usize = 0;
            while j < m && pick.is_none()
                invariant
                    n == self.usages.len(),
                    m == self.cooldowns.len(),
                    us == self.usages@,
                    cs == self.cooldowns@,
                    i < n,
                    j <= m,
                    a.len() == n,
                    pick is None ==> greedy_pick(us, cs, a@, i as int, 0) == greedy_pick(
                        us,
                        cs,
                        a@,
                        i as int,
                        j as int,
                    ),
                    pick is Some ==> greedy_pick(us, cs, a@, i as int, 0) == pick,
                decreases m - j, if pick is None { 1int } else { 0int },
            {
                if self.is_eligible(i, j) && self.is_free(&a, i, j) {
                    pick = Some(j);
                } else {
                    j += 1;
                }
            }
            a.set(i, pick);
            t += 1;
        }
        a
    }

    /// Whether `a` assigns every usage and meets every constraint.
    pub fn is_feasible(&self, a: &Vec<Option<usize>>) -> (r: bool)
        ensures
            r == feasible(self.usages@, self.cooldowns@, a@),
    {
        let n = self.usages.len();
        if a.len() != n {
            return false;
        }
        let mut i: usize = 0;
        while i < n
            invariant
                n == self.usages.len(),
                a.len() == n,
                i <= n,
                forall|i2: int|
                    0 <= i2 < i && #[trigger] a@[i2] is Some ==> a@[i2]->0 < self.cooldowns.len()
                        && eligible(self.usages@, self.cooldowns@, i2, a@[i2]->0 as int),
                forall|i2: int, k2: int|
                    0 <= i2 < i && i2 < k2 < n && #[trigger] a@[i2] is Some && #[trigger] a@[k2]
                        == a@[i2] ==> !too_close(
                        self.usages@,
                        self.cooldowns@[a@[i2]->0 as int].cooldown,
                        i2,
                        k2,
                    ),
            decreases n - i,
        {
            match a[i] {
                None => {},
                Some(j) => {
                    if j >= self.cooldowns.len() || !self.is_eligible(i, j) {
                        assert(a@[i as int] is Some);
                        return false;
                    }
                    let w = self.cooldowns[j].cooldown;
                    let mut k = i + 1;
                    while k < n
                        invariant
                            n == self.usages.len(),
                            a.len() == n,
                            i < k <= n,
                            a@[i as int] == Some(j),
                            j < self.cooldowns.len(),
                            w == self.cooldowns@[j as int].cooldown,
                            forall|k2: int|
                                i < k2 < k && #[trigger] a@[k2] == a@[i as int] ==> !too_close(
                                    self.usages@,
                                    w,
                                    i as int,
                                    k2,
                                ),
                        decreases n - k,
                    {
                        let same = match a[k] {
                            Some(x) => x == j,
                            None => false,
                        };
                        if same && self.too_close_exec(w, i, k) {
                            assert(a@[i as int] is Some && a@[k as int] == a@[i as int]);
                            return false;
                        }
                        k += 1;
                    }
                },
            }
            i += 1;
        }
        true
    }

    /// The summed value of the usages that `a` serves.
    pub fn value_of(&self, a: &Vec<Option<usize>>) -> (r: u128)
        requires
            a.len() <= self.usages.len(),
        ensures
            r == total_value(self.usages@, a@),
    {
        let mut acc: u128 = 0;
        let mut i: usize = 0;
        while i < a.len()
            invariant
                a.len() <= self.usages.len(),
                i <= a.len(),
                acc == total_value(self.usages@, a@.take(i as int)),
                acc <= i * 18446744073709551615,
            decreases a.len() - i,
        {
            assert(a@.take(i + 1).drop_last() =~= a@.take(i as int));
            if a[i].is_some() {
                acc = acc + self.usages[i].value as u128;
            }
            i += 1;
        }
        assert(a@.take(i as int) =~= a@);
        acc
    }

    /// The plan, given what the outside solver returned for the problem that
    /// `eligibility` and `recharge_conflicts` describe: nothing served when it
    /// failed; its answer when that is feasible and worth at least the greedy
    /// baseline; the baseline otherwise. This fixes the tie-break: among equally
    /// good plans the solver's feasible answer wins, and where none is kept the
    /// baseline visits usages earliest first and gives each the lowest-index
    /// resource that may serve it.
    pub fn select_plan(&self, solved: Option<Vec<Option<usize>>>) -> (r: Vec<Option<usize>>)
        ensures
            r@ == chosen(self.usages@, self.cooldowns@, solved_view(solved)),
            feasible(self.usages@, self.cooldowns@, r@),
            solved is Some ==> total_value(self.usages@, r@) >= total_value(
                self.usages@,
                greedy(self.usages@, self.cooldowns@),
            ),
            self.cooldowns.len() == 0 ==> forall|i: int| 0 <= i < r.len() ==> #[trigger] r[i] is None,
    {
        let m = self.cooldowns.len();
        proof {
            assert(self.cooldowns@.len() == m);
            assert(self.usages@.len() == self.usages.len());
            law_plan_feasible(self.usages@, self.cooldowns@, solved_view(solved));
            if m == 0 {
                law_no_resources_unserved(self.usages@, self.cooldowns@, solved_view(solved));
            }
        }
        match solved {
            None => {
                let mut r: Vec<Option<usize>> = Vec::new();
                let mut i: usize = 0;
                while i < self.usages.len()
                    invariant
                        i <= self.usages.len(),
                        r@ == unserved(i as int),
                    decreases self.usages.len() - i,
                {
                    r.push(None);
                    assert(r@ =~= unserved(i + 1));
                    i += 1;
                }
                r
            },
            Some(s) => {
                let g = self.greedy();
                if self.is_feasible(&s) && self.value_of(&s) >= self.value_of(&g) {
                    s
                } else {
                    g
                }
            },
        }
    }

    /// Each usage's id, mapped to the name of the resource that the selected
    /// plan gives it, if any.
    pub fn assignments(self, solved: Option<Vec<Option<usize>>>) -> (r: HashMap<u64, Option<String>>)
        requires
            forall|i: int, k: int|
                0 <= i < k < self.usages.len() ==> self.usages@[i].uid != self.usages@[k].uid,
        ensures
            forall|u: u64| #[trigger] r@.contains_key(u) ==> exists|i: int| 0 <= i < self.usages.len() && self.usages@[i].uid == u,
            forall|i: int|
                0 <= i < self.usages.len() ==> {
                    let plan = chosen(self.usages@, self.cooldowns@, solved_view(solved));
                    let u = #[trigger] self.usages@[i].uid;
                    &&& r@.contains_key(u)
                    &&& match plan[i] {
                        None => r@[u] is None,
                        Some(j) => r@[u] is Some && r@[u]->0@ == self.cooldowns@[j as int].display_name@,
                    }
                },
    {
        let plan = self.select_plan(solved);
        let ghost us = self.usages@;
        let mut r: HashMap<u64, Option<String>> = HashMap::new();
        let mut i: usize = 0;
        while i < self.usages.len()
            invariant
                us == self.usages@,
                plan@ == chosen(self.usages@, self.cooldowns@, solved_view(solved)),
                feasible(self.usages@, self.cooldowns@, plan@),
                forall|i2: int, k: int| 0 <= i2 < k < us.len() ==> us[i2].uid != us[k].uid,
                i <= self.usages.len(),
                forall|u: u64| #[trigger] r@.contains_key(u) ==> exists|i2: int| 0 <= i2 < i && us[i2].uid == u,
                forall|i2: int|
                    0 <= i2 < i ==> {
                        let u = #[trigger] us[i2].uid;
                        &&& r@.contains_key(u)
                        &&& match plan@[i2] {
                            None => r@[u] is None,
                            Some(j) => r@[u] is Some && r@[u]->0@ == self.cooldowns@[j as int].display_name@,
                        }
                    },
            decreases self.usages.len() - i,
        {
            let name = match plan[i] {
                None => None,
                Some(j) => Some(self.cooldowns[j].display_name.clone()),
            };
            let u = self.usages[i].uid;
            r.insert(u, name);
            proof {
                assert forall|i2: int| 0 <= i2 < i + 1 implies {
                    let u2 = #[trigger] us[i2].uid;
                    &&& r@.contains_key(u2)
                    &&& match plan@[i2] {
                        None => r@[u2] is None,
                        Some(j) => r@[u2] is Some && r@[u2]->0@ == self.cooldowns@[j as int].display_name@,
                    }
                } by {
                    if i2 < i {
                        assert(us[i2].uid != us[i as int].uid);
                    }
                }
                assert forall|u2: u64| #[trigger] r@.contains_key(u2) implies exists|i2: int| 0 <= i2 < i + 1 && us[i2].uid == u2 by {
                    if u2 == u {
                        assert(us[i as int].uid == u2);
                    }
                }
            }
            i += 1;
        }
        r
    }
}

} // verus!
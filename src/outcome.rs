//! What a plan does to the set of names in a directory, and the laws of the
//! plan that `reconcile` returns.
use vstd::prelude::*;
use crate::fields::same_file;
use crate::reconcile::{
    Step,
    fuzzy_free,
    first_fuzzy,
    rename_sources,
    rename_steps,
    create_steps,
    delete_steps,
    plan,
};

verus! {

/// The names in a directory after one step.
pub open spec fn apply_step(dir: Set<Seq<char>>, s: Step) -> Set<Seq<char>> {
    match s {
        Step::Create(n) => dir.insert(n),
        Step::Rename(a, b) => dir.remove(a).insert(b),
        Step::Delete(n) => dir.remove(n),
    }
}

/// The names in a directory after the steps, in order.
pub open spec fn apply_plan(dir: Set<Seq<char>>, steps: Seq<Step>) -> Set<Seq<char>>
    decreases steps.len(),
{
    if steps.len() == 0 {
        dir
    } else {
        apply_step(apply_plan(dir, steps.drop_last()), steps.last())
    }
}

/// Whether the step takes the name `n` away.
pub open spec fn removes(s: Step, n: Seq<char>) -> bool {
    match s {
        Step::Create(_) => false,
        Step::Rename(a, _) => a == n,
        Step::Delete(x) => x == n,
    }
}

/// Whether the step brings the name `n` in.
pub open spec fn inserts(s: Step, n: Seq<char>) -> bool {
    match s {
        Step::Create(x) => x == n,
        Step::Rename(_, b) => b == n,
        Step::Delete(_) => false,
    }
}

/// The names that some step takes away.
pub open spec fn removed(steps: Seq<Step>) -> Set<Seq<char>> {
    Set::new(|n: Seq<char>| exists|i: int| 0 <= i < steps.len() && #[trigger] removes(steps[i], n))
}

/// The names that some step brings in.
pub open spec fn inserted(steps: Seq<Step>) -> Set<Seq<char>> {
    Set::new(|n: Seq<char>| exists|i: int| 0 <= i < steps.len() && #[trigger] inserts(steps[i], n))
}

/// Where no name is both taken away and brought in, the order of the steps
/// does not matter.
pub proof fn lemma_apply_disjoint(dir: Set<Seq<char>>, steps: Seq<Step>)
    requires
        removed(steps).disjoint(inserted(steps)),
    ensures
        apply_plan(dir, steps) == dir.difference(removed(steps)).union(inserted(steps)),
    decreases steps.len(),
{
    if steps.len() > 0 {
        let prev = steps.drop_last();
        let x = steps.last();
        let last = steps.len() - 1;
        assert forall|n: Seq<char>| removed(prev).contains(n) implies removed(steps).contains(n) by {
            let i = choose|i: int| 0 <= i < prev.len() && #[trigger] removes(prev[i], n);
            assert(removes(steps[i], n));
        };
        assert forall|n: Seq<char>| inserted(prev).contains(n) implies inserted(steps).contains(n) by {
            let i = choose|i: int| 0 <= i < prev.len() && #[trigger] inserts(prev[i], n);
            assert(inserts(steps[i], n));
        };
        lemma_apply_disjoint(dir, prev);
        assert forall|n: Seq<char>| #[trigger] removed(steps).contains(n) == (removed(prev).contains(n) || removes(x, n)) by {
            if removed(steps).contains(n) && !removes(x, n) {
                let i = choose|i: int| 0 <= i < steps.len() && #[trigger] removes(steps[i], n);
                assert(removes(prev[i], n));
            }
            if removes(x, n) {
                assert(removes(steps[last], n));
            }
        };
        assert forall|n: Seq<char>| #[trigger] inserted(steps).contains(n) == (inserted(prev).contains(n) || inserts(x, n)) by {
            if inserted(steps).contains(n) && !inserts(x, n) {
                let i = choose|i: int| 0 <= i < steps.len() && #[trigger] inserts(steps[i], n);
                assert(inserts(prev[i], n));
            }
            if inserts(x, n) {
                assert(inserts(steps[last], n));
            }
        };
        assert(apply_plan(dir, steps) =~= dir.difference(removed(steps)).union(inserted(steps)));
    } else {
        assert(removed(steps) =~= Set::empty());
        assert(inserted(steps) =~= Set::empty());
        assert(apply_plan(dir, steps) =~= dir.difference(removed(steps)).union(inserted(steps)));
    }
}

proof fn lemma_first_fuzzy(
    t: Seq<Seq<char>>,
    l: Seq<Seq<char>>,
    src: Seq<Option<int>>,
    name: Seq<char>,
    from: int,
)
    ensures
        first_fuzzy(t, l, src, name, from) matches Some(k) ==> fuzzy_free(t, l, src, k)
            && same_file(name, l[k]),
    decreases l.len() - from,
{
    if from < l.len() {
        lemma_first_fuzzy(t, l, src, name, from + 1);
    }
}

/// A rename pairs a local name that no target equals with a target that no
/// local name equals, and later targets do not change earlier pairings.
proof fn lemma_sources(t: Seq<Seq<char>>, l: Seq<Seq<char>>, m: int)
    requires
        0 <= m,
    ensures
        rename_sources(t, l, m).len() == m,
        forall|a: int|
            0 <= a < m ==> #[trigger] rename_sources(t, l, m)[a] == rename_sources(t, l, a + 1)[a],
        forall|a: int|
            0 <= a < m && (#[trigger] rename_sources(t, l, m)[a]) is Some ==> {
                let k = rename_sources(t, l, m)[a]->0;
                0 <= k < l.len() && !t.contains(l[k]) && !l.contains(t[a])
            },
    decreases m,
{
    if m > 0 {
        let prev = rename_sources(t, l, m - 1);
        lemma_sources(t, l, m - 1);
        lemma_first_fuzzy(t, l, prev, t[m - 1], 0);
    }
}

/// A rename between names that have no exact counterpart.
pub open spec fn is_pairing(t: Seq<Seq<char>>, l: Seq<Seq<char>>, s: Step) -> bool {
    match s {
        Step::Rename(a, b) => l.contains(a) && !t.contains(a) && t.contains(b) && !l.contains(b),
        _ => false,
    }
}

/// A create of a target that no local name equals.
pub open spec fn is_missing_target(t: Seq<Seq<char>>, l: Seq<Seq<char>>, s: Step) -> bool {
    match s {
        Step::Create(n) => t.contains(n) && !l.contains(n),
        _ => false,
    }
}

/// A delete of a local name that no target equals.
pub open spec fn is_stray_local(t: Seq<Seq<char>>, l: Seq<Seq<char>>, s: Step) -> bool {
    match s {
        Step::Delete(n) => l.contains(n) && !t.contains(n),
        _ => false,
    }
}

proof fn lemma_rename_steps(t: Seq<Seq<char>>, l: Seq<Seq<char>>, m: int)
    requires
        0 <= m <= t.len(),
    ensures
        forall|i: int|
            0 <= i < rename_steps(t, l, m).len() ==> is_pairing(t, l, #[trigger] rename_steps(t, l, m)[i]),
        forall|a: int|
            0 <= a < m && (#[trigger] rename_sources(t, l, a + 1)[a]) is Some ==> rename_steps(
                t,
                l,
                m,
            ).contains(Step::Rename(l[rename_sources(t, l, a + 1)[a]->0], t[a])),
    decreases m,
{
    if m > 0 {
        lemma_rename_steps(t, l, m - 1);
        lemma_sources(t, l, m);
        let r = rename_steps(t, l, m - 1);
        if let Some(k) = rename_sources(t, l, m)[m - 1] {
            assert(l.contains(l[k]));
            assert(t.contains(t[m - 1]));
            assert forall|a: int|
                0 <= a < m && (#[trigger] rename_sources(t, l, a + 1)[a]) is Some implies rename_steps(
                t,
                l,
                m,
            ).contains(Step::Rename(l[rename_sources(t, l, a + 1)[a]->0], t[a])) by {
                let k2 = rename_sources(t, l, a + 1)[a]->0;
                if a < m - 1 {
                    let w = choose|w: int| 0 <= w < r.len() && #[trigger] r[w] == Step::Rename(l[k2], t[a]);
                    assert(rename_steps(t, l, m)[w] == Step::Rename(l[k2], t[a]));
                } else {
                    assert(rename_steps(t, l, m)[r.len() as int] == Step::Rename(l[k2], t[a]));
                }
            };
        }
    }
}

proof fn lemma_create_steps(t: Seq<Seq<char>>, l: Seq<Seq<char>>, src: Seq<Option<int>>, m: int)
    requires
        0 <= m <= t.len(),
        src.len() == t.len(),
    ensures
        forall|i: int|
            0 <= i < create_steps(t, l, src, m).len() ==> is_missing_target(t, l, #[trigger] create_steps(t, l, src, m)[i]),
        forall|a: int|
            0 <= a < m && !l.contains(#[trigger] t[a]) && src[a] is None ==> create_steps(t, l, src, m).contains(Step::Create(t[a])),
    decreases m,
{
    if m > 0 {
        lemma_create_steps(t, l, src, m - 1);
        let r = create_steps(t, l, src, m - 1);
        assert(t.contains(t[m - 1]));
        assert forall|a: int|
            0 <= a < m && !l.contains(#[trigger] t[a]) && src[a] is None implies create_steps(t, l, src, m).contains(Step::Create(t[a])) by {
            if a < m - 1 {
                let w = choose|w: int| 0 <= w < r.len() && #[trigger] r[w] == Step::Create(t[a]);
                assert(create_steps(t, l, src, m)[w] == Step::Create(t[a]));
            } else {
                assert(create_steps(t, l, src, m)[r.len() as int] == Step::Create(t[a]));
            }
        };
    }
}

proof fn lemma_delete_steps(t: Seq<Seq<char>>, l: Seq<Seq<char>>, src: Seq<Option<int>>, m: int)
    requires
        0 <= m <= l.len(),
    ensures
        forall|i: int|
            0 <= i < delete_steps(t, l, src, m).len() ==> is_stray_local(t, l, #[trigger] delete_steps(t, l, src, m)[i]),
        forall|k: int|
            0 <= k < m && !t.contains(#[trigger] l[k]) && !src.contains(Some(k)) ==> delete_steps(t, l, src, m).contains(Step::Delete(l[k])),
    decreases m,
{
    if m > 0 {
        lemma_delete_steps(t, l, src, m - 1);
        let r = delete_steps(t, l, src, m - 1);
        assert(l.contains(l[m - 1]));
        assert forall|k: int|
            0 <= k < m && !t.contains(#[trigger] l[k]) && !src.contains(Some(k)) implies delete_steps(t, l, src, m).contains(Step::Delete(l[k])) by {
            if k < m - 1 {
                let w = choose|w: int| 0 <= w < r.len() && #[trigger] r[w] == Step::Delete(l[k]);
                assert(delete_steps(t, l, src, m)[w] == Step::Delete(l[k]));
            } else {
                assert(delete_steps(t, l, src, m)[r.len() as int] == Step::Delete(l[k]));
            }
        };
    }
}

proof fn lemma_plan_shape(t: Seq<Seq<char>>, l: Seq<Seq<char>>)
    ensures
        forall|i: int|
            0 <= i < plan(t, l).len() ==> is_pairing(t, l, #[trigger] plan(t, l)[i])
                || is_missing_target(t, l, plan(t, l)[i]) || is_stray_local(t, l, plan(t, l)[i]),
{
    let src = rename_sources(t, l, t.len() as int);
    lemma_sources(t, l, t.len() as int);
    lemma_rename_steps(t, l, t.len() as int);
    lemma_create_steps(t, l, src, t.len() as int);
    lemma_delete_steps(t, l, src, l.len() as int);
    let r = rename_steps(t, l, t.len() as int);
    let c = create_steps(t, l, src, t.len() as int);
    let d = delete_steps(t, l, src, l.len() as int);
    assert forall|i: int| 0 <= i < plan(t, l).len() implies is_pairing(t, l, #[trigger] plan(t, l)[i])
        || is_missing_target(t, l, plan(t, l)[i]) || is_stray_local(t, l, plan(t, l)[i]) by {
        if i < r.len() {
            assert(plan(t, l)[i] == r[i]);
        } else if i < r.len() + c.len() {
            assert(plan(t, l)[i] == c[i - r.len()]);
        } else {
            assert(plan(t, l)[i] == d[i - r.len() - c.len()]);
        }
    };
}

/// Exact matches come first: every step of the plan touches only names that
/// have no exact counterpart. A rename takes a local name that no target
/// equals to a target that no local name equals; a create is for a target
/// that no local name equals; a delete is of a local name that no target
/// equals.
pub proof fn lemma_exact_match_priority(t: Seq<Seq<char>>, l: Seq<Seq<char>>)
    ensures
        forall|i: int|
            0 <= i < plan(t, l).len() ==> match #[trigger] plan(t, l)[i] {
                Step::Rename(a, b) => !t.contains(a) && !l.contains(b),
                Step::Create(n) => !l.contains(n),
                Step::Delete(n) => !t.contains(n),
            },
{
    lemma_plan_shape(t, l);
}

/// Applying the plan to the local names leaves exactly the target names.
pub proof fn lemma_plan_reaches_targets(t: Seq<Seq<char>>, l: Seq<Seq<char>>)
    ensures
        apply_plan(l.to_set(), plan(t, l)) == t.to_set(),
{
    let p = plan(t, l);
    let src = rename_sources(t, l, t.len() as int);
    lemma_plan_shape(t, l);
    lemma_sources(t, l, t.len() as int);
    lemma_rename_steps(t, l, t.len() as int);
    lemma_create_steps(t, l, src, t.len() as int);
    lemma_delete_steps(t, l, src, l.len() as int);
    let r = rename_steps(t, l, t.len() as int);
    let c = create_steps(t, l, src, t.len() as int);
    let d = delete_steps(t, l, src, l.len() as int);
    let big_l = l.to_set();
    let big_t = t.to_set();
    assert forall|n: Seq<char>| removed(p).contains(n) <==> big_l.difference(big_t).contains(n) by {
        if removed(p).contains(n) {
            let i = choose|i: int| 0 <= i < p.len() && #[trigger] removes(p[i], n);
        }
        if big_l.difference(big_t).contains(n) {
            let k = choose|k: int| 0 <= k < l.len() && l[k] == n;
            if src.contains(Some(k)) {
                let a = choose|a: int| 0 <= a < src.len() && #[trigger] src[a] == Some(k);
                assert(src[a] == rename_sources(t, l, a + 1)[a]);
                let w = choose|w: int| 0 <= w < r.len() && #[trigger] r[w] == Step::Rename(l[k], t[a]);
                assert(p[w] == r[w]);
                assert(removes(p[w], n));
            } else {
                assert(!t.contains(l[k]));
                let w = choose|w: int| 0 <= w < d.len() && #[trigger] d[w] == Step::Delete(l[k]);
                assert(p[r.len() + c.len() + w] == d[w]);
                assert(removes(p[r.len() + c.len() + w], n));
            }
        }
    };
    assert forall|n: Seq<char>| inserted(p).contains(n) <==> big_t.difference(big_l).contains(n) by {
        if inserted(p).contains(n) {
            let i = choose|i: int| 0 <= i < p.len() && #[trigger] inserts(p[i], n);
        }
        if big_t.difference(big_l).contains(n) {
            let a = choose|a: int| 0 <= a < t.len() && t[a] == n;
            if src[a] is Some {
                assert(src[a] == rename_sources(t, l, a + 1)[a]);
                let k = src[a]->0;
                let w = choose|w: int| 0 <= w < r.len() && #[trigger] r[w] == Step::Rename(l[k], t[a]);
                assert(p[w] == r[w]);
                assert(inserts(p[w], n));
            } else {
                let w = choose|w: int| 0 <= w < c.len() && #[trigger] c[w] == Step::Create(t[a]);
                assert(p[r.len() + w] == c[w]);
                assert(inserts(p[r.len() + w], n));
            }
        }
    };
    assert(removed(p) =~= big_l.difference(big_t));
    assert(inserted(p) =~= big_t.difference(big_l));
    lemma_apply_disjoint(big_l, p);
    assert(big_l.difference(removed(p)).union(inserted(p)) =~= big_t);
}

/// Where the local names already are the target names, there is nothing
/// to do.
pub proof fn lemma_plan_of_synced_is_empty(t: Seq<Seq<char>>, l: Seq<Seq<char>>)
    requires
        l.to_set() == t.to_set(),
    ensures
        plan(t, l) == Seq::<Step>::empty(),
{
    lemma_plan_shape(t, l);
    let p = plan(t, l);
    if p.len() > 0 {
        assert(is_pairing(t, l, p[0]) || is_missing_target(t, l, p[0]) || is_stray_local(t, l, p[0]));
        match p[0] {
            Step::Rename(a, b) => {
                assert(t.to_set().contains(b));
            },
            Step::Create(n) => {
                assert(t.to_set().contains(n));
            },
            Step::Delete(n) => {
                assert(l.to_set().contains(n));
            },
        }
    }
    assert(p =~= Seq::<Step>::empty());
}

/// Reconciling twice in a row does nothing the second time: once the plan
/// has been applied, whatever order the directory lists its names in, the
/// next plan is empty.
pub proof fn lemma_reconcile_idempotent(
    t: Seq<Seq<char>>,
    l: Seq<Seq<char>>,
    listing: Seq<Seq<char>>,
)
    requires
        listing.to_set() == apply_plan(l.to_set(), plan(t, l)),
    ensures
        plan(t, listing) == Seq::<Step>::empty(),
{
    lemma_plan_reaches_targets(t, l);
    lemma_plan_of_synced_is_empty(t, listing);
}

} // verus!

//! Substitution plans: one candidate chosen for every class of a table.

use vstd::prelude::*;
use crate::table::{CharClass, classes_view, copy_chars};

verus! {

/// The candidate lists of a table, class by class.
pub open spec fn candidates_of(t: Seq<(char, Seq<char>)>) -> Seq<Seq<char>> {
    t.map_values(|e: (char, Seq<char>)| e.1)
}

/// `p` picks, for every class in order, one of that class's candidates.
pub open spec fn is_plan(cands: Seq<Seq<char>>, p: Seq<char>) -> bool {
    &&& p.len() == cands.len()
    &&& forall|k: int| 0 <= k < p.len() ==> #[trigger] cands[k].contains(p[k])
}

/// How many plans there are: the product of the candidate list lengths.
pub open spec fn plan_count(cands: Seq<Seq<char>>) -> nat
    decreases cands.len(),
{
    if cands.len() == 0 {
        1
    } else {
        plan_count(cands.drop_last()) * cands.last().len()
    }
}

/// The strings that a vector of character vectors holds.
pub open spec fn views(v: Seq<Vec<char>>) -> Seq<Seq<char>> {
    v.map_values(|x: Vec<char>| x@)
}

pub proof fn lemma_views_push(v: Seq<Vec<char>>, x: Vec<char>)
    ensures
        views(v.push(x)) == views(v).push(x@),
{
    assert(views(v.push(x)) =~= views(v).push(x@));
}

proof fn lemma_contains_push<A>(s: Seq<A>, e: A, x: A)
    requires
        s.contains(x),
    ensures
        s.push(e).contains(x),
{
    let i = choose|i: int| 0 <= i < s.len() && s[i] == x;
    assert(s.push(e)[i] == x);
}

/// Every plan of `cur` extended by every character of `cands`.
fn extend_plans(cur: &Vec<Vec<char>>, cands: &Vec<char>) -> (next: Vec<Vec<char>>)
    ensures
        next.len() == cands.len() * cur.len(),
        forall|x: int|
            0 <= x < next.len() ==> {
                &&& #[trigger] next[x]@.len() > 0
                &&& cands@.contains(next[x]@.last())
                &&& views(cur@).contains(next[x]@.drop_last())
            },
        forall|m: int, a: int|
            0 <= m < cur.len() && 0 <= a < cands.len() ==> views(next@).contains(
                #[trigger] cur[m]@.push(#[trigger] cands[a]),
            ),
{
    let mut next: Vec<Vec<char>> = Vec::new();
    let mut a: usize = 0;
    while a < cands.len()
        invariant
            a <= cands.len(),
            next.len() == a * cur.len(),
            forall|x: int|
                0 <= x < next.len() ==> {
                    &&& #[trigger] next[x]@.len() > 0
                    &&& cands@.contains(next[x]@.last())
                    &&& views(cur@).contains(next[x]@.drop_last())
                },
            forall|m: int, a2: int|
                0 <= m < cur.len() && 0 <= a2 < a ==> views(next@).contains(
                    #[trigger] cur[m]@.push(#[trigger] cands[a2]),
                ),
        decreases cands.len() - a,
    {
        let c = cands[a];
        let mut m: usize = 0;
        let ghost start = next.len();
        while m < cur.len()
            invariant
                a < cands.len(),
                c == cands[a as int],
                m <= cur.len(),
                start == a * cur.len(),
                next.len() == start + m,
                forall|x: int|
                    0 <= x < next.len() ==> {
                        &&& #[trigger] next[x]@.len() > 0
                        &&& cands@.contains(next[x]@.last())
                        &&& views(cur@).contains(next[x]@.drop_last())
                    },
                forall|m2: int, a2: int|
                    0 <= m2 < cur.len() && 0 <= a2 < a ==> views(next@).contains(
                        #[trigger] cur[m2]@.push(#[trigger] cands[a2]),
                    ),
                forall|m2: int| 0 <= m2 < m ==> views(next@).contains(#[trigger] cur[m2]@.push(c)),
            decreases cur.len() - m,
        {
            let mut p = copy_chars(&cur[m]);
            p.push(c);
            let ghost before = next@;
            let ghost q = p@;
            proof {
                lemma_views_push(before, p);
                assert(q.drop_last() =~= cur[m as int]@);
                assert(views(cur@)[m as int] == cur[m as int]@);
                assert(cands@[a as int] == q.last());
            }
            next.push(p);
            proof {
                assert(views(next@)[before.len() as int] == q);
                assert forall|x: int| 0 <= x < next.len() implies {
                    &&& #[trigger] next[x]@.len() > 0
                    &&& cands@.contains(next[x]@.last())
                    &&& views(cur@).contains(next[x]@.drop_last())
                } by {
                    if x < before.len() {
                        assert(next[x] == before[x]);
                    }
                }
                assert forall|m2: int, a2: int|
                    0 <= m2 < cur.len() && 0 <= a2 < a implies views(next@).contains(
                        #[trigger] cur[m2]@.push(#[trigger] cands[a2]),
                    ) by {
                    lemma_contains_push(views(before), q, cur[m2]@.push(cands[a2]));
                }
                assert forall|m2: int| 0 <= m2 < m + 1 implies views(next@).contains(
                    #[trigger] cur[m2]@.push(c),
                ) by {
                    if m2 < m {
                        lemma_contains_push(views(before), q, cur[m2]@.push(c));
                    }
                }
            }
            m = m + 1;
        }
        proof {
            assert((a + 1) * cur.len() == a * cur.len() + cur.len()) by (nonlinear_arith);
        }
        a = a + 1;
    }
    next
}

/// Every plan for the table `classes`: the cartesian product of the
/// candidate lists, built one class at a time.
pub fn generate_subsequences(classes: &Vec<CharClass>) -> (plans: Vec<Vec<char>>)
    ensures
        plans.len() == plan_count(candidates_of(classes_view(classes@))),
        forall|i: int|
            0 <= i < plans.len() ==> is_plan(candidates_of(classes_view(classes@)), #[trigger] plans[i]@),
        forall|p: Seq<char>|
            is_plan(candidates_of(classes_view(classes@)), p) ==> #[trigger] views(plans@).contains(p),
{
    let ghost cands = candidates_of(classes_view(classes@));
    let mut plans: Vec<Vec<char>> = Vec::new();
    plans.push(Vec::new());
    let mut i: usize = 0;
    proof {
        assert(cands.take(0) =~= Seq::<Seq<char>>::empty());
        assert forall|p: Seq<char>| is_plan(cands.take(0), p) implies #[trigger] views(plans@).contains(p) by {
            assert(p =~= plans[0]@);
            assert(views(plans@)[0] == p);
        }
    }
    while i < classes.len()
        invariant
            cands == candidates_of(classes_view(classes@)),
            i <= classes.len(),
            plans.len() == plan_count(cands.take(i as int)),
            forall|x: int| 0 <= x < plans.len() ==> is_plan(cands.take(i as int), #[trigger] plans[x]@),
            forall|p: Seq<char>| is_plan(cands.take(i as int), p) ==> #[trigger] views(plans@).contains(p),
        decreases classes.len() - i,
    {
        let next = extend_plans(&plans, &classes[i].candidates);
        let ghost ci = classes[i as int].candidates@;
        proof {
            let pre = cands.take(i as int);
            let post = cands.take(i as int + 1);
            assert(cands[i as int] == ci);
            assert(post.drop_last() =~= pre);
            assert(post.last() == ci);
            assert(plan_count(post) == plan_count(pre) * ci.len());
            assert(next.len() == plan_count(post)) by (nonlinear_arith)
                requires
                    next.len() == ci.len() * plans.len(),
                    plans.len() == plan_count(pre),
                    plan_count(post) == plan_count(pre) * ci.len(),
            ;
            assert forall|x: int| 0 <= x < next.len() implies is_plan(post, #[trigger] next[x]@) by {
                let q = next[x]@;
                assert(q.len() > 0);
                let m = choose|m: int| 0 <= m < plans.len() && views(plans@)[m] == q.drop_last();
                assert(views(plans@)[m] == plans[m]@);
                assert(is_plan(pre, plans[m]@));
                assert forall|k: int| 0 <= k < q.len() implies #[trigger] post[k].contains(q[k]) by {
                    if k < i {
                        assert(post[k] == pre[k]);
                        assert(q[k] == q.drop_last()[k]);
                    } else {
                        assert(q[k] == q.last());
                    }
                }
            }
            assert forall|p: Seq<char>| is_plan(post, p) implies #[trigger] views(next@).contains(p) by {
                let q = p.drop_last();
                assert forall|k: int| 0 <= k < q.len() implies #[trigger] pre[k].contains(q[k]) by {
                    assert(post[k] == pre[k]);
                    assert(post[k].contains(p[k]));
                }
                assert(is_plan(pre, q));
                assert(views(plans@).contains(q));
                let m = choose|m: int| 0 <= m < plans.len() && views(plans@)[m] == q;
                assert(views(plans@)[m] == plans[m]@);
                assert(post[i as int].contains(p[i as int]));
                let a = choose|a: int| 0 <= a < ci.len() && ci[a] == p[i as int];
                assert(ci[a] == classes[i as int].candidates[a]);
                assert(views(next@).contains(plans[m]@.push(classes[i as int].candidates[a])));
                assert(q.push(p.last()) =~= p);
            }
        }
        plans = next;
        i = i + 1;
    }
    proof {
        assert(cands.take(i as int) =~= cands);
    }
    plans
}

} // verus!

//! Applying one plan to a word.

use vstd::prelude::*;
use crate::table::{CharClass, classes_view, find_class, has_source, source_index, wf_table};

verus! {

/// What `c` becomes under `plan`: the chosen candidate of its class, or `c`
/// itself when no class has it as source.
pub open spec fn subst_char(t: Seq<(char, Seq<char>)>, plan: Seq<char>, c: char) -> char {
    if has_source(t, c) {
        plan[source_index(t, c)]
    } else {
        c
    }
}

/// The word with every character replaced as `plan` says. Each character of
/// the input word is looked up once, so one substitution never feeds another.
pub open spec fn apply_plan_spec(t: Seq<(char, Seq<char>)>, plan: Seq<char>, w: Seq<char>) -> Seq<char> {
    w.map_values(|c: char| subst_char(t, plan, c))
}

/// Relies on String::push: appends one character at the end.
#[verifier::external_body]
pub(crate) fn push_char(s: &mut String, c: char)
    ensures
        final(s)@ == old(s)@.push(c),
{
    s.push(c)
}

/// The word rewritten by `plan`, one candidate per class of `classes`.
pub fn apply_plan(classes: &Vec<CharClass>, plan: &Vec<char>, word: &str) -> (r: String)
    requires
        wf_table(classes_view(classes@)),
        plan.len() == classes.len(),
    ensures
        r@ == apply_plan_spec(classes_view(classes@), plan@, word@),
{
    let ghost t = classes_view(classes@);
    let n = word.unicode_len();
    let mut r = String::new();
    let mut i: usize = 0;
    while i < n
        invariant
            t == classes_view(classes@),
            wf_table(t),
            plan.len() == classes.len(),
            n == word@.len(),
            i <= n,
            r@ == apply_plan_spec(t, plan@, word@.take(i as int)),
        decreases n - i,
    {
        let c = word.get_char(i);
        let j = find_class(classes, c);
        let d = if j < classes.len() {
            plan[j]
        } else {
            c
        };
        proof {
            if j < classes.len() {
                assert(t[j as int].0 == c);
                assert(has_source(t, c));
                assert(source_index(t, c) == j);
            } else {
                assert forall|x: int| 0 <= x < t.len() implies t[x].0 != c by {
                    assert(t[x].0 == classes[x].source);
                }
            }
            assert(d == subst_char(t, plan@, c));
            assert(word@.take(i as int + 1) =~= word@.take(i as int).push(c));
        }
        push_char(&mut r, d);
        i = i + 1;
        assert(r@ =~= apply_plan_spec(t, plan@, word@.take(i as int)));
    }
    assert(word@.take(n as int) =~= word@);
    r
}

} // verus!
